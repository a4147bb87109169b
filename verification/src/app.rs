//! The application state machine: one mutable aggregate of tree, selection,
//! marks, clipboard and edit mode, driven by a single event loop.
//!
//! Every operation that would touch the filesystem returns the work to do as
//! plain [`FsAction`] data; the caller performs it and reports back through
//! the matching `apply_*` method, which refreshes the tree and re-resolves
//! the cursor by path, never by stale index.

use vstd::prelude::*;

use crate::OpError;
use crate::file_ops::{Clipboard, ClipboardContent, FsAction, PendingOp, name_taken, rename_decision};
use crate::file_tree::{FileTree, lemma_flatten_nonempty, lemma_visible_node_path, visible_node};
use crate::fs::FsSnapshot;
use crate::git_status::{GitRepo, split_on_newline};
use crate::paths::{dec_rep, name_seq, parent_of, parent_seq, str_eq, u64_to_string};

verus! {

/// Decoded image pixels for an in-terminal preview.
#[derive(Clone)]
pub struct ImagePreview {
    pub width: u32,
    pub height: u32,
    pub pixels: Vec<(u8, u8, u8)>,
}

#[derive(Debug, Clone, PartialEq)]
pub enum InputMode {
    Normal,
    Search,
    Rename,
    NewFile,
    NewDir,
    Confirm(ConfirmAction),
    Preview,
    ExternalCommand,
}

/// The payload of a pending delete confirmation: what would be deleted, and
/// whether any of it is a directory (which makes the delete recursive).
#[derive(Debug, Clone, PartialEq)]
pub struct DeleteInfo {
    pub paths: Vec<String>,
    pub has_directories: bool,
}

#[derive(Debug, Clone, PartialEq)]
pub enum ConfirmAction {
    Delete(DeleteInfo),
}

pub struct App {
    pub tree: FileTree,
    pub git_repo: GitRepo,
    pub selected: usize,
    pub marked: Vec<String>,
    pub clipboard: Clipboard,
    pub input_mode: InputMode,
    pub input_buffer: String,
    pub message: Option<String>,
    pub should_quit: bool,
    pub scroll_offset: usize,
    pub tree_area_height: usize,
    pub last_click_ms: u64,
    pub last_click_index: Option<usize>,
    pub show_hidden: bool,
    pub preview_content: Vec<String>,
    pub preview_scroll: usize,
    pub preview_path: Option<String>,
    pub image_preview: Option<ImagePreview>,
    pub quick_preview_enabled: bool,
    pub quick_preview_content: Vec<String>,
    pub quick_preview_scroll: usize,
    pub quick_preview_path: Option<String>,
    pub quick_preview_image: Option<ImagePreview>,
    pub drop_buffer: String,
    pub last_char_ms: u64,
    pub last_command: Option<String>,
    pub default_command: Option<String>,
    pub command_history: Vec<String>,
    pub history_index: Option<usize>,
}

/// Relies on String::push: appends exactly the one character.
#[verifier::external_body]
fn push_char(s: &mut String, c: char)
    ensures
        final(s)@ == old(s)@.push(c),
{
    s.push(c);
}

/// A counted status line such as `Copied 3 item(s)`.
fn count_message(prefix: &str, n: u64, suffix: &str) -> (r: String)
    ensures
        r@ == prefix@ + dec_rep(n as int) + suffix@,
{
    String::from_str(prefix).concat(u64_to_string(n).as_str()).concat(suffix)
}

/// `ms` with every entry named `p` removed.
pub open spec fn remove_name(ms: Seq<String>, p: Seq<char>) -> Seq<String>
    decreases ms.len(),
{
    if ms.len() == 0 {
        Seq::empty()
    } else {
        remove_name(ms.drop_last(), p) + if ms.last()@ == p {
            Seq::empty()
        } else {
            seq![ms.last()]
        }
    }
}

proof fn lemma_remove_name(ms: Seq<String>, p: Seq<char>)
    ensures
        forall|q: Seq<char>| #[trigger]
            name_taken(remove_name(ms, p), q) <==> name_taken(ms, q) && q != p,
        (forall|i: int, j: int|
            0 <= i < j < ms.len() ==> (#[trigger] ms[i])@ != (#[trigger] ms[j])@) ==> (forall|
            i: int,
            j: int,
        |
            0 <= i < j < remove_name(ms, p).len() ==> (#[trigger] remove_name(ms, p)[i])@ != (
            #[trigger] remove_name(ms, p)[j])@),
    decreases ms.len(),
{
    if ms.len() > 0 {
        lemma_remove_name(ms.drop_last(), p);
        let rest = remove_name(ms.drop_last(), p);
        assert forall|q: Seq<char>| #[trigger]
            name_taken(remove_name(ms, p), q) <==> name_taken(ms, q) && q != p by {
            if ms.last()@ == p {
                assert(remove_name(ms, p) =~= rest);
                if name_taken(ms, q) && q != p {
                    let i = choose|i: int| 0 <= i < ms.len() && (#[trigger] ms[i])@ == q;
                    assert(i < ms.len() - 1 && ms.drop_last()[i] == ms[i]);
                }
                if name_taken(rest, q) {
                    assert(name_taken(ms.drop_last(), q));
                    let j = choose|j: int|
                        0 <= j < ms.drop_last().len() && (#[trigger] ms.drop_last()[j])@ == q;
                    assert(ms[j] == ms.drop_last()[j]);
                }
            } else {
                if name_taken(ms, q) && q != p {
                    let i = choose|i: int| 0 <= i < ms.len() && (#[trigger] ms[i])@ == q;
                    if i < ms.len() - 1 {
                        assert(ms.drop_last()[i] == ms[i]);
                        assert(name_taken(rest, q));
                        let k = choose|k: int| 0 <= k < rest.len() && (#[trigger] rest[k])@ == q;
                        assert(remove_name(ms, p)[k] == rest[k]);
                    } else {
                        assert(remove_name(ms, p)[remove_name(ms, p).len() - 1] == ms.last());
                    }
                }
                if name_taken(remove_name(ms, p), q) {
                    let i = choose|i: int|
                        0 <= i < remove_name(ms, p).len() && (#[trigger] remove_name(ms, p)[i])@
                            == q;
                    if i < rest.len() {
                        assert(remove_name(ms, p)[i] == rest[i]);
                        assert(0 <= i < rest.len() && rest[i]@ == q);
                        assert(name_taken(rest, q));
                        assert(name_taken(ms.drop_last(), q));
                        let j = choose|j: int|
                            0 <= j < ms.drop_last().len() && (#[trigger] ms.drop_last()[j])@ == q;
                        assert(ms[j] == ms.drop_last()[j]);
                    } else {
                        assert(remove_name(ms, p)[i] == ms.last());
                        assert(ms[ms.len() - 1] == ms.last());
                    }
                }
            }
        }
        if forall|i: int, j: int|
            0 <= i < j < ms.len() ==> (#[trigger] ms[i])@ != (#[trigger] ms[j])@ {
            assert(forall|i: int, j: int|
                0 <= i < j < ms.drop_last().len() ==> (#[trigger] ms.drop_last()[i])@ != (
                #[trigger] ms.drop_last()[j])@) by {
                assert(forall|i: int|
                    0 <= i < ms.drop_last().len() ==> ms.drop_last()[i] == ms[i]);
            }
            if ms.last()@ != p {
                assert forall|i: int, j: int|
                    0 <= i < j < remove_name(ms, p).len() implies (#[trigger] remove_name(
                    ms,
                    p,
                )[i])@ != (#[trigger] remove_name(ms, p)[j])@ by {
                    if j < rest.len() {
                        assert(remove_name(ms, p)[i] == rest[i]);
                        assert(remove_name(ms, p)[j] == rest[j]);
                    } else {
                        assert(remove_name(ms, p)[j] == ms.last());
                        assert(remove_name(ms, p)[i] == rest[i]);
                        assert(!name_taken(ms.drop_last(), ms.last()@)) by {
                            if name_taken(ms.drop_last(), ms.last()@) {
                                let k = choose|k: int|
                                    0 <= k < ms.drop_last().len() && (#[trigger] ms.drop_last()[
                                        k
                                    ])@ == ms.last()@;
                                assert(ms[k] == ms.drop_last()[k]);
                                assert(ms[k]@ == ms[ms.len() - 1]@);
                            }
                        }
                        assert(name_taken(rest, rest[i]@));
                    }
                }
            } else {
                assert(remove_name(ms, p) =~= rest);
            }
        }
    }
}

impl App {
    /// The tree is sound, the cursor is in range, and no path is marked
    /// twice.
    pub open spec fn wf(self) -> bool {
        &&& self.tree.wf()
        &&& (self.selected as int) < self.tree.spec_len()
        &&& forall|i: int, j: int|
            0 <= i < j < self.marked@.len() ==> (#[trigger] self.marked@[i])@ != (
            #[trigger] self.marked@[j])@
    }

    /// The path under the cursor.
    pub open spec fn sel_path(self) -> Seq<char> {
        self.tree.node_at(self.selected as int).path@
    }

    /// The operative paths: the marked set when anything is marked, else the
    /// single selected path. Every bulk operation starts from this.
    pub open spec fn operative_strings(self) -> Seq<String> {
        if self.marked@.len() > 0 {
            self.marked@
        } else {
            seq![self.tree.node_at(self.selected as int).path]
        }
    }

    /// Where paste and create place things: the selected directory itself,
    /// or the parent of a selected file.
    pub open spec fn paste_dest_spec(self) -> Seq<char> {
        let node = self.tree.node_at(self.selected as int);
        if node.is_dir {
            node.path@
        } else {
            match parent_seq(node.path@) {
                Some(p) => p,
                None => node.path@,
            }
        }
    }

    /// Build the application around an already scanned root. History and
    /// version-control state are whatever the caller read in.
    pub fn new(
        root_path: String,
        default_command: Option<String>,
        fs: &FsSnapshot,
        command_history: Vec<String>,
        git_repo: GitRepo,
    ) -> (r: Result<App, OpError>)
        ensures
            r is Ok <==> fs.has_listing(root_path@),
            r matches Ok(app) ==> {
                &&& app.wf()
                &&& app.selected == 0
                &&& app.scroll_offset == 0
                &&& app.marked@.len() == 0
                &&& app.clipboard.content is None
                &&& app.input_mode == InputMode::Normal
                &&& !app.show_hidden
                &&& !app.should_quit
                &&& app.tree.root.path@ == root_path@
                &&& app.tree.root.expanded
                &&& app.tree.show_hidden == false
                &&& app.command_history == command_history
                &&& app.default_command == default_command
                &&& crate::file_tree::sorted_children(app.tree.root.children@)
                &&& forall|name: Seq<char>, d: bool|
                    crate::file_tree::child_key_count(app.tree.root.children@, name, d)
                        == crate::file_tree::entry_key_count(
                        fs.listing_seq(root_path@),
                        false,
                        name,
                        d,
                    )
                &&& forall|i: int|
                    0 <= i < app.tree.root.children@.len() ==> crate::file_tree::fresh_child(
                        #[trigger] app.tree.root.children@[i],
                        root_path@,
                        1,
                    )
                &&& crate::file_tree::flatten_seq(app.tree.root) == seq![app.tree.root]
                    + app.tree.root.children@
                &&& app.tree.spec_len() == 1 + app.tree.root.children@.len()
            },
    {
        let show_hidden = false;
        let tree = match FileTree::new(root_path, show_hidden, fs) {
            Ok(t) => t,
            Err(e) => {
                return Err(e);
            },
        };
        Ok(
            App {
                tree,
                git_repo,
                selected: 0,
                marked: Vec::new(),
                clipboard: Clipboard { content: None },
                input_mode: InputMode::Normal,
                input_buffer: String::new(),
                message: None,
                should_quit: false,
                scroll_offset: 0,
                tree_area_height: 20,
                last_click_ms: 0,
                last_click_index: None,
                show_hidden,
                preview_content: Vec::new(),
                preview_scroll: 0,
                preview_path: None,
                image_preview: None,
                quick_preview_enabled: false,
                quick_preview_content: Vec::new(),
                quick_preview_scroll: 0,
                quick_preview_path: None,
                quick_preview_image: None,
                drop_buffer: String::new(),
                last_char_ms: 0,
                last_command: None,
                default_command,
                command_history,
                history_index: None,
            },
        )
    }

    /// Move the cursor one row up, stopping at the top.
    pub fn move_up(&mut self)
        ensures
            *final(self) == (App {
                selected: if old(self).selected > 0 {
                    (old(self).selected - 1) as usize
                } else {
                    0
                },
                ..*old(self)
            }),
    {
        if self.selected > 0 {
            self.selected = self.selected - 1;
        }
    }

    /// Move the cursor one row down, stopping at the last row.
    pub fn move_down(&mut self)
        requires
            old(self).wf(),
        ensures
            final(self).wf(),
            *final(self) == (App {
                selected: if old(self).selected + 1 < old(self).tree.spec_len() {
                    (old(self).selected + 1) as usize
                } else {
                    old(self).selected
                },
                ..*old(self)
            }),
    {
        let n = self.tree.len();
        proof {
            lemma_flatten_nonempty(self.tree.root);
        }
        if self.selected < n - 1 {
            self.selected = self.selected + 1;
        }
    }

    pub fn move_to_top(&mut self)
        ensures
            *final(self) == (App { selected: 0usize, ..*old(self) }),
    {
        self.selected = 0;
    }

    pub fn move_to_bottom(&mut self)
        requires
            old(self).wf(),
        ensures
            final(self).wf(),
            *final(self) == (App {
                selected: (old(self).tree.spec_len() - 1) as usize,
                ..*old(self)
            }),
    {
        proof {
            lemma_flatten_nonempty(self.tree.root);
        }
        self.selected = self.tree.len() - 1;
    }

    /// Move the cursor several rows up.
    pub fn scroll_up(&mut self, lines: usize)
        ensures
            *final(self) == (App {
                selected: if old(self).selected >= lines {
                    (old(self).selected - lines) as usize
                } else {
                    0
                },
                ..*old(self)
            }),
    {
        let mut i: usize = 0;
        while i < lines
            invariant
                i <= lines,
                *self == (App {
                    selected: if old(self).selected >= i {
                        (old(self).selected - i) as usize
                    } else {
                        0
                    },
                    ..*old(self)
                }),
            decreases lines - i,
        {
            self.move_up();
            i += 1;
        }
    }

    /// Move the cursor several rows down.
    pub fn scroll_down(&mut self, lines: usize)
        requires
            old(self).wf(),
        ensures
            final(self).wf(),
            *final(self) == (App {
                selected: if old(self).selected + lines < old(self).tree.spec_len() {
                    (old(self).selected + lines) as usize
                } else {
                    (old(self).tree.spec_len() - 1) as usize
                },
                ..*old(self)
            }),
    {
        proof {
            lemma_flatten_nonempty(self.tree.root);
        }
        let n = self.tree.len();
        let mut i: usize = 0;
        while i < lines
            invariant
                self.wf(),
                i <= lines,
                n >= 1,
                n == old(self).tree.spec_len(),
                *self == (App {
                    selected: if old(self).selected + i < n {
                        (old(self).selected + i) as usize
                    } else {
                        (n - 1) as usize
                    },
                    ..*old(self)
                }),
            decreases lines - i,
        {
            self.move_down();
            i += 1;
        }
    }

    /// Re-resolve the cursor to a path, leaving it alone when the path is
    /// not visible. This, not index arithmetic, is how selection survives
    /// every rebuild.
    pub fn select_path(&mut self, path: &str)
        requires
            old(self).wf(),
        ensures
            final(self).wf(),
            *final(self) == (App { selected: final(self).selected, ..*old(self) }),
            old(self).tree.has_path(path@) ==> final(self).tree.node_at(
                final(self).selected as int,
            ).path@ == path@ && (forall|j: int|
                0 <= j < final(self).selected ==> (#[trigger] final(self).tree.nodes@[j]).path@
                    != path@),
            !old(self).tree.has_path(path@) ==> final(self).selected == old(self).selected,
    {
        match self.tree.find_index_by_path(path) {
            Some(i) => {
                self.selected = i;
            },
            None => {},
        }
    }

    /// Clamp the cursor after the tree shrank.
    fn clamp_selection(&mut self)
        requires
            old(self).tree.wf(),
        ensures
            *final(self) == (App { selected: final(self).selected, ..*old(self) }),
            (final(self).selected as int) < final(self).tree.spec_len(),
            (old(self).selected as int) < old(self).tree.spec_len() ==> final(self).selected == old(self).selected,
    {
        proof {
            lemma_flatten_nonempty(self.tree.root);
        }
        if self.selected >= self.tree.len() {
            self.selected = self.tree.len() - 1;
        }
    }

    /// Flip the mark on the selected path, then step down one row so that
    /// repeated presses mark a run of entries.
    pub fn toggle_mark(&mut self)
        requires
            old(self).wf(),
        ensures
            final(self).wf(),
            final(self).marked@ == (if name_taken(old(self).marked@, old(self).sel_path()) {
                remove_name(old(self).marked@, old(self).sel_path())
            } else {
                old(self).marked@.push(old(self).tree.node_at(old(self).selected as int).path)
            }),
            final(self).selected == (if old(self).selected + 1 < old(self).tree.spec_len() {
                (old(self).selected + 1) as usize
            } else {
                old(self).selected
            }),
            final(self).tree == old(self).tree,
            final(self).clipboard == old(self).clipboard,
            final(self).input_mode == old(self).input_mode,
    {
        let ghost p = self.sel_path();
        let path = self.nodes_path_clone(self.selected);
        let mut found: bool = false;
        let n = self.marked.len();
        let mut i: usize = 0;
        while i < n
            invariant
                n == self.marked@.len(),
                i <= n,
                path@ == p,
                found == exists|j: int| 0 <= j < i && (#[trigger] self.marked@[j])@ == p,
            decreases n - i,
        {
            if str_eq(self.marked[i].as_str(), path.as_str()) {
                found = true;
            }
            i += 1;
        }
        if found {
            let mut kept: Vec<String> = Vec::new();
            let mut j: usize = 0;
            while j < n
                invariant
                    n == self.marked@.len(),
                    j <= n,
                    path@ == p,
                    kept@ == remove_name(self.marked@.take(j as int), p),
                decreases n - j,
            {
                let ghost prev = kept@;
                if !str_eq(self.marked[j].as_str(), path.as_str()) {
                    kept.push(self.marked[j].clone());
                    proof {
                        assert(kept@ =~= prev + seq![self.marked@[j as int]]);
                    }
                }
                proof {
                    assert(self.marked@.take(j + 1).drop_last() =~= self.marked@.take(j as int));
                    assert(self.marked@.take(j + 1).last() == self.marked@[j as int]);
                    assert(kept@ =~= remove_name(self.marked@.take(j + 1), p));
                }
                j += 1;
            }
            proof {
                assert(self.marked@.take(n as int) =~= self.marked@);
                lemma_remove_name(self.marked@, p);
            }
            self.marked = kept;
        } else {
            proof {
                assert forall|k: int|
                    0 <= k < self.marked@.len() implies (#[trigger] self.marked@[k])@ != p by {}
            }
            self.marked.push(path);
        }
        self.move_down();
    }

    /// Exact clone of the path at a flat index.
    fn nodes_path_clone(&self, index: usize) -> (r: String)
        requires
            self.tree.wf(),
            (index as int) < self.tree.spec_len(),
        ensures
            r == self.tree.node_at(index as int).path,
    {
        self.tree.nodes[index].path.clone()
    }

    /// Drop every mark.
    pub fn clear_marks(&mut self)
        ensures
            *final(self) == (App { marked: final(self).marked, ..*old(self) }),
            final(self).marked@.len() == 0,
    {
        self.marked = Vec::new();
    }

    /// The paths a bulk operation works on.
    pub fn get_selected_paths(&self) -> (r: Vec<String>)
        requires
            self.wf(),
        ensures
            r@ == self.operative_strings(),
    {
        if self.marked.len() > 0 {
            let n = self.marked.len();
            let mut out: Vec<String> = Vec::new();
            let mut i: usize = 0;
            while i < n
                invariant
                    n == self.marked@.len(),
                    i <= n,
                    out@ == self.marked@.take(i as int),
                decreases n - i,
            {
                out.push(self.marked[i].clone());
                proof {
                    assert(out@ =~= self.marked@.take(i + 1));
                }
                i += 1;
            }
            proof {
                assert(self.marked@.take(n as int) =~= self.marked@);
            }
            out
        } else {
            let mut out: Vec<String> = Vec::new();
            out.push(self.nodes_path_clone(self.selected));
            proof {
                assert(out@ =~= seq![self.tree.node_at(self.selected as int).path]);
            }
            out
        }
    }

    /// Where a paste or create lands right now.
    pub fn get_paste_destination(&self) -> (r: Option<String>)
        requires
            self.wf(),
        ensures
            r matches Some(d) && d@ == self.paste_dest_spec(),
    {
        let node_is_dir = self.tree.nodes[self.selected].is_dir;
        let path = self.nodes_path_clone(self.selected);
        if node_is_dir {
            Some(path)
        } else {
            match parent_of(path.as_str()) {
                Some(parent) => Some(parent),
                None => Some(path),
            }
        }
    }

    /// Put the operative paths on the clipboard as a copy payload and drop
    /// the marks, so a later mark-based operation cannot reuse them with a
    /// different meaning. The clipboard afterwards holds exactly this copy
    /// payload and nothing else.
    pub fn yank(&mut self)
        requires
            old(self).wf(),
        ensures
            final(self).wf(),
            final(self).clipboard.content matches Some(c) && (c matches ClipboardContent::Copy(ps)
                && ps@ == old(self).operative_strings()),
            final(self).marked@.len() == 0,
            final(self).message is Some,
            final(self).tree == old(self).tree,
            final(self).selected == old(self).selected,
            final(self).input_mode == old(self).input_mode,
    {
        let paths = self.get_selected_paths();
        let n = paths.len() as u64;
        self.clipboard.copy(paths);
        self.message = Some(count_message("Copied ", n, " item(s)"));
        self.clear_marks();
    }

    /// Put the operative paths on the clipboard as a cut payload. Marks are
    /// kept: cut items stay visibly marked until pasted or cancelled. The
    /// clipboard afterwards holds exactly this cut payload and nothing else.
    pub fn cut(&mut self)
        requires
            old(self).wf(),
        ensures
            final(self).wf(),
            final(self).clipboard.content matches Some(c) && (c matches ClipboardContent::Cut(ps)
                && ps@ == old(self).operative_strings()),
            final(self).marked == old(self).marked,
            final(self).message is Some,
            final(self).tree == old(self).tree,
            final(self).selected == old(self).selected,
            final(self).input_mode == old(self).input_mode,
    {
        let paths = self.get_selected_paths();
        let n = paths.len() as u64;
        self.clipboard.cut(paths);
        self.message = Some(count_message("Cut ", n, " item(s)"));
    }

    /// Turn the clipboard into the operations that paste it at the current
    /// destination. A copy payload stays armed for repeated pasting; a cut
    /// payload is consumed and its marks dropped.
    pub fn paste(&mut self) -> (r: Vec<FsAction>)
        requires
            old(self).wf(),
        ensures
            final(self).wf(),
            final(self).tree == old(self).tree,
            final(self).selected == old(self).selected,
            final(self).input_mode == old(self).input_mode,
            old(self).clipboard.content is None ==> r@.len() == 0 && *final(self) == *old(self),
            old(self).clipboard.content matches Some(ClipboardContent::Copy(ps)) ==> {
                &&& r@.len() == ps@.len()
                &&& forall|i: int|
                    0 <= i < r@.len() ==> ((#[trigger] r@[i]) matches FsAction::CopyInto {
                        src,
                        dest_dir,
                    } && src@ == ps@[i]@ && dest_dir@ == old(self).paste_dest_spec())
                &&& final(self).clipboard.content == Some(ClipboardContent::Copy(ps))
                &&& final(self).marked == old(self).marked
            },
            old(self).clipboard.content matches Some(ClipboardContent::Cut(ps)) ==> {
                &&& r@.len() == ps@.len()
                &&& forall|i: int|
                    0 <= i < r@.len() ==> ((#[trigger] r@[i]) matches FsAction::MoveInto {
                        src,
                        dest_dir,
                    } && src@ == ps@[i]@ && dest_dir@ == old(self).paste_dest_spec())
                &&& final(self).clipboard.content is None
                &&& final(self).marked@.len() == 0
            },
    {
        let dest = match self.get_paste_destination() {
            Some(d) => d,
            None => {
                return Vec::new();
            },
        };
        let mut content: Option<ClipboardContent> = None;
        core::mem::swap(&mut self.clipboard.content, &mut content);
        match content {
            None => Vec::new(),
            Some(ClipboardContent::Copy(paths)) => {
                let mut actions: Vec<FsAction> = Vec::new();
                let n = paths.len();
                let mut i: usize = 0;
                while i < n
                    invariant
                        n == paths@.len(),
                        i <= n,
                        actions@.len() == i,
                        dest@ == old(self).paste_dest_spec(),
                        forall|k: int|
                            0 <= k < i ==> ((#[trigger] actions@[k]) matches FsAction::CopyInto {
                                src,
                                dest_dir,
                            } && src@ == paths@[k]@ && dest_dir@ == dest@),
                    decreases n - i,
                {
                    actions.push(
                        FsAction::CopyInto { src: paths[i].clone(), dest_dir: dest.clone() },
                    );
                    i += 1;
                }
                self.clipboard.copy(paths);
                actions
            },
            Some(ClipboardContent::Cut(paths)) => {
                let mut actions: Vec<FsAction> = Vec::new();
                let n = paths.len();
                let mut i: usize = 0;
                while i < n
                    invariant
                        n == paths@.len(),
                        i <= n,
                        actions@.len() == i,
                        dest@ == old(self).paste_dest_spec(),
                        forall|k: int|
                            0 <= k < i ==> ((#[trigger] actions@[k]) matches FsAction::MoveInto {
                                src,
                                dest_dir,
                            } && src@ == paths@[k]@ && dest_dir@ == dest@),
                    decreases n - i,
                {
                    actions.push(
                        FsAction::MoveInto { src: paths[i].clone(), dest_dir: dest.clone() },
                    );
                    i += 1;
                }
                self.clear_marks();
                actions
            },
        }
    }
}

/// After a successful rescan from `fs`, the root's children are key for
/// key the root's listing, under the tree's hidden-entry filter.
pub open spec fn tree_mirrors_root_listing(t: FileTree, fs: FsSnapshot, root: Seq<char>) -> bool {
    forall|name: Seq<char>, d: bool|
        crate::file_tree::child_key_count(t.root.children@, name, d)
            == crate::file_tree::entry_key_count(fs.listing_seq(root), t.show_hidden, name, d)
}

/// Some visible node carries this path and is a directory.
pub open spec fn tree_dir_at(t: FileTree, p: Seq<char>) -> bool {
    exists|j: int|
        0 <= j < t.nodes@.len() && (#[trigger] t.nodes@[j]).path@ == p && t.nodes@[j].is_dir
}

/// The status line for a failed operation.
fn error_message(e: OpError) -> (r: String)
    ensures
        e == OpError::IoError ==> r@ == "Error: I/O failure"@,
        e == OpError::NameCollision ==> r@ == "Error: name already exists"@,
        e == OpError::NotFound ==> r@ == "Error: not found"@,
{
    match e {
        OpError::IoError => String::from_str("Error: I/O failure"),
        OpError::NameCollision => String::from_str("Error: name already exists"),
        OpError::NotFound => String::from_str("Error: not found"),
    }
}

impl App {
    /// Keep the cursor inside the visible window, moving the window as
    /// little as possible.
    pub fn adjust_scroll(&mut self, visible_height: usize)
        requires
            visible_height >= 1,
        ensures
            *final(self) == (App { scroll_offset: final(self).scroll_offset, ..*old(self) }),
            final(self).scroll_offset == (if old(self).selected < old(self).scroll_offset {
                old(self).selected
            } else if old(self).selected >= old(self).scroll_offset + visible_height {
                (old(self).selected - visible_height + 1) as usize
            } else {
                old(self).scroll_offset
            }),
            final(self).scroll_offset <= final(self).selected < final(self).scroll_offset
                + visible_height,
    {
        if self.selected < self.scroll_offset {
            self.scroll_offset = self.selected;
        } else if visible_height <= self.selected && self.selected - visible_height
            >= self.scroll_offset {
            self.scroll_offset = self.selected - visible_height + 1;
        } else if self.selected >= visible_height && self.selected - visible_height + 1
            > self.scroll_offset {
            self.scroll_offset = self.selected - visible_height + 1;
        }
    }

    /// Rescan the tree and re-resolve the cursor by path; when the path is
    /// gone, fall back to clamping the old index.
    fn refresh_tree(&mut self, fs: &FsSnapshot) -> (r: Result<(), OpError>)
        requires
            old(self).wf(),
        ensures
            final(self).wf(),
            r is Err <==> !fs.has_listing(old(self).tree.root.path@),
            r is Err ==> final(self).tree == old(self).tree && final(self).selected == old(self).selected,
            final(self).tree.root.path@ == old(self).tree.root.path@,
            final(self).tree.show_hidden == old(self).tree.show_hidden,
            final(self).marked == old(self).marked,
            final(self).clipboard == old(self).clipboard,
            final(self).input_mode == old(self).input_mode,
            final(self).input_buffer == old(self).input_buffer,
            final(self).message == old(self).message,
            final(self).tree.has_path(old(self).sel_path()) ==> final(self).sel_path() == old(self).sel_path(),
            r is Ok ==> tree_mirrors_root_listing(
                final(self).tree,
                *fs,
                old(self).tree.root.path@,
            ),
    {
        let old_path = self.nodes_path_clone(self.selected);
        match self.tree.refresh(fs) {
            Err(e) => Err(e),
            Ok(()) => {
                self.clamp_selection();
                self.select_path(old_path.as_str());
                Ok(())
            },
        }
    }

    /// Rescan on request. Marks survive; if the selected path still exists,
    /// the cursor follows it.
    pub fn refresh(&mut self, fs: &FsSnapshot)
        requires
            old(self).wf(),
        ensures
            final(self).wf(),
            final(self).marked == old(self).marked,
            final(self).clipboard == old(self).clipboard,
            final(self).input_mode == old(self).input_mode,
            fs.has_listing(old(self).tree.root.path@) ==> (final(self).message matches Some(m)
                && m@ == "Refreshed"@),
            !fs.has_listing(old(self).tree.root.path@) ==> (final(self).message matches Some(m)
                && m@ == "Refresh error"@) && final(self).tree == old(self).tree,
            final(self).tree.has_path(old(self).sel_path()) ==> final(self).sel_path() == old(self).sel_path(),
            fs.has_listing(old(self).tree.root.path@) ==> tree_mirrors_root_listing(
                final(self).tree,
                *fs,
                old(self).tree.root.path@,
            ),
    {
        match self.refresh_tree(fs) {
            Ok(()) => {
                self.message = Some(String::from_str("Refreshed"));
            },
            Err(_) => {
                self.message = Some(String::from_str("Refresh error"));
            },
        }
    }

    /// Flip the hidden-entry filter and rescan under the new filter.
    pub fn toggle_hidden(&mut self, fs: &FsSnapshot)
        requires
            old(self).wf(),
        ensures
            final(self).wf(),
            final(self).show_hidden == !old(self).show_hidden,
            final(self).tree.show_hidden == !old(self).show_hidden,
            final(self).marked == old(self).marked,
            final(self).clipboard == old(self).clipboard,
            final(self).message is Some,
            final(self).tree.has_path(old(self).sel_path()) ==> final(self).sel_path() == old(self).sel_path(),
            fs.has_listing(old(self).tree.root.path@) ==> tree_mirrors_root_listing(
                final(self).tree,
                *fs,
                old(self).tree.root.path@,
            ),
    {
        let old_path = self.nodes_path_clone(self.selected);
        let new_flag = !self.show_hidden;
        self.show_hidden = new_flag;
        match self.tree.set_show_hidden(new_flag, fs) {
            Ok(()) => {
                self.clamp_selection();
                self.select_path(old_path.as_str());
                if new_flag {
                    self.message = Some(String::from_str("Showing hidden files"));
                } else {
                    self.message = Some(String::from_str("Hiding hidden files"));
                }
            },
            Err(e) => {
                self.message = Some(error_message(e));
            },
        }
    }

    /// Collapse everything and jump back to the root.
    pub fn collapse_all(&mut self)
        requires
            old(self).wf(),
        ensures
            final(self).wf(),
            final(self).selected == 0,
            final(self).scroll_offset == 0,
            final(self).marked == old(self).marked,
            final(self).clipboard == old(self).clipboard,
            final(self).tree.root.expanded,
            forall|i: int|
                1 <= i < final(self).tree.spec_len() ==> !(#[trigger] final(self).tree.node_at(
                    i,
                )).expanded,
            final(self).tree.root.children@.len() == old(self).tree.root.children@.len(),
            forall|i: int|
                0 <= i < old(self).tree.root.children@.len() ==> crate::file_tree::collapsed_tree(
                    old(self).tree.root.children@[i],
                    #[trigger] final(self).tree.root.children@[i],
                ),
            final(self).message matches Some(m) && m@ == "Collapsed all"@,
    {
        self.tree.collapse_all();
        self.selected = 0;
        self.scroll_offset = 0;
        self.message = Some(String::from_str("Collapsed all"));
    }

    /// Expand every directory that can be expanded from the snapshot.
    pub fn expand_all(&mut self, fs: &FsSnapshot)
        requires
            old(self).wf(),
        ensures
            final(self).wf(),
            final(self).marked == old(self).marked,
            final(self).clipboard == old(self).clipboard,
            final(self).tree.root.expanded,
            forall|i: int|
                0 <= i < final(self).tree.spec_len() ==> ((#[trigger] final(self).tree.node_at(
                    i,
                )).is_dir ==> final(self).tree.node_at(i).expanded),
            final(self).message matches Some(m) && m@ == "Expanded all"@,
    {
        let _ = self.tree.expand_all(fs);
        self.clamp_selection();
        self.message = Some(String::from_str("Expanded all"));
    }

    /// Expand or collapse the selected directory; the cursor keeps pointing
    /// at the same path.
    pub fn toggle_expand(&mut self, fs: &FsSnapshot)
        requires
            old(self).wf(),
        ensures
            final(self).wf(),
            final(self).marked == old(self).marked,
            final(self).clipboard == old(self).clipboard,
            final(self).input_mode == old(self).input_mode,
            final(self).tree.has_path(old(self).sel_path()) ==> final(self).sel_path() == old(self).sel_path(),
            !old(self).tree.node_at(old(self).selected as int).is_dir ==> *final(self) == *old(self),
            final(self).last_click_index == old(self).last_click_index,
            final(self).last_click_ms == old(self).last_click_ms,
            old(self).tree.node_at(old(self).selected as int).is_dir && !old(self).tree.node_at(
                old(self).selected as int,
            ).expanded ==> (visible_node(old(self).tree.root, old(self).sel_path())
                matches Some(tn) && ((tn.is_dir && !tn.expanded && (tn.children@.len() > 0
                || fs.has_listing(tn.path@))) ==> (visible_node(
                final(self).tree.root,
                old(self).sel_path(),
            ) matches Some(u) && u.is_dir && u.expanded))),
            old(self).tree.node_at(old(self).selected as int).is_dir && old(self).tree.node_at(
                old(self).selected as int,
            ).expanded ==> (visible_node(old(self).tree.root, old(self).sel_path())
                matches Some(tn) && ((tn.is_dir && tn.expanded) ==> (visible_node(
                final(self).tree.root,
                old(self).sel_path(),
            ) matches Some(u) && u.is_dir && !u.expanded && u.children@ == tn.children@))),
    {
        let ghost self0 = *self;
        if !self.tree.nodes[self.selected].is_dir {
            return ;
        }
        let path = self.nodes_path_clone(self.selected);
        proof {
            lemma_visible_node_path(self0.tree.root, self0.sel_path());
        }
        if self.tree.nodes[self.selected].expanded {
            let _ = self.tree.collapse_node(self.selected);
        } else {
            let _ = self.tree.expand_node(self.selected, fs);
        }
        self.clamp_selection();
        self.select_path(path.as_str());
    }

    /// Expand the selected directory when it is collapsed.
    pub fn expand_current(&mut self, fs: &FsSnapshot)
        requires
            old(self).wf(),
        ensures
            final(self).wf(),
            final(self).marked == old(self).marked,
            final(self).clipboard == old(self).clipboard,
            final(self).input_mode == old(self).input_mode,
            final(self).tree.has_path(old(self).sel_path()) ==> final(self).sel_path() == old(self).sel_path(),
            !(old(self).tree.node_at(old(self).selected as int).is_dir && !old(self).tree.node_at(
                old(self).selected as int,
            ).expanded) ==> *final(self) == *old(self),
            old(self).tree.node_at(old(self).selected as int).is_dir && !old(self).tree.node_at(
                old(self).selected as int,
            ).expanded ==> (visible_node(old(self).tree.root, old(self).sel_path())
                matches Some(tn) && ((tn.is_dir && !tn.expanded && (tn.children@.len() > 0
                || fs.has_listing(tn.path@))) ==> (visible_node(
                final(self).tree.root,
                old(self).sel_path(),
            ) matches Some(u) && u.is_dir && u.expanded))),
    {
        let ghost self0 = *self;
        let is_dir = self.tree.nodes[self.selected].is_dir;
        let expanded = self.tree.nodes[self.selected].expanded;
        if is_dir && !expanded {
            let path = self.nodes_path_clone(self.selected);
            proof {
                lemma_visible_node_path(self0.tree.root, self0.sel_path());
            }
            let _ = self.tree.expand_node(self.selected, fs);
            self.clamp_selection();
            self.select_path(path.as_str());
        }
    }

    /// Collapse the selected directory, or step to the parent of anything
    /// else.
    pub fn collapse_current(&mut self)
        requires
            old(self).wf(),
        ensures
            final(self).wf(),
            final(self).marked == old(self).marked,
            final(self).clipboard == old(self).clipboard,
            final(self).input_mode == old(self).input_mode,
            old(self).tree.node_at(old(self).selected as int).is_dir && old(self).tree.node_at(
                old(self).selected as int,
            ).expanded ==> (visible_node(old(self).tree.root, old(self).sel_path())
                matches Some(tn) && ((tn.is_dir && tn.expanded) ==> (visible_node(
                final(self).tree.root,
                old(self).sel_path(),
            ) matches Some(u) && u.is_dir && !u.expanded && u.children@ == tn.children@))),
            !(old(self).tree.node_at(old(self).selected as int).is_dir && old(self).tree.node_at(
                old(self).selected as int,
            ).expanded) ==> final(self).tree == old(self).tree && (parent_seq(old(self).sel_path())
                matches Some(pp) ==> (old(self).tree.has_path(pp) ==> final(self).sel_path()
                == pp)),
    {
        let ghost self0 = *self;
        let is_dir = self.tree.nodes[self.selected].is_dir;
        let expanded = self.tree.nodes[self.selected].expanded;
        let path = self.nodes_path_clone(self.selected);
        if is_dir && expanded {
            proof {
                lemma_visible_node_path(self0.tree.root, self0.sel_path());
            }
            let _ = self.tree.collapse_node(self.selected);
            self.clamp_selection();
            self.select_path(path.as_str());
        } else {
            match parent_of(path.as_str()) {
                Some(parent) => {
                    self.select_path(parent.as_str());
                },
                None => {},
            }
        }
    }

    fn tree_has_dir_path(&self, path: &str) -> (r: bool)
        requires
            self.tree.wf(),
        ensures
            r == tree_dir_at(self.tree, path@),
    {
        let n = self.tree.nodes.len();
        let mut i: usize = 0;
        while i < n
            invariant
                n == self.tree.nodes@.len(),
                i <= n,
                forall|j: int|
                    0 <= j < i ==> !((#[trigger] self.tree.nodes@[j]).path@ == path@
                        && self.tree.nodes@[j].is_dir),
            decreases n - i,
        {
            if self.tree.nodes[i].is_dir && str_eq(self.tree.nodes[i].path.as_str(), path) {
                return true;
            }
            i += 1;
        }
        false
    }

    /// Ask for confirmation before a delete: remember exactly what would be
    /// deleted and whether any of it is a directory, which makes the delete
    /// recursive and irreversible.
    pub fn confirm_delete(&mut self)
        requires
            old(self).wf(),
        ensures
            final(self).wf(),
            final(self).input_mode matches InputMode::Confirm(ca) && (ca
                matches ConfirmAction::Delete(info) && info.paths@ == old(self).operative_strings()
                && info.has_directories == (exists|i: int|
                0 <= i < old(self).operative_strings().len() && tree_dir_at(
                    old(self).tree,
                    (#[trigger] old(self).operative_strings()[i])@,
                ))),
            final(self).tree == old(self).tree,
            final(self).marked == old(self).marked,
            final(self).clipboard == old(self).clipboard,
            final(self).selected == old(self).selected,
            final(self).message == old(self).message,
    {
        let paths = self.get_selected_paths();
        let n = paths.len();
        let mut has_dirs = false;
        let mut i: usize = 0;
        while i < n
            invariant
                self.wf(),
                *self == *old(self),
                n == paths@.len(),
                paths@ == old(self).operative_strings(),
                i <= n,
                has_dirs == (exists|k: int|
                    0 <= k < i && tree_dir_at(self.tree, (#[trigger] paths@[k])@)),
            decreases n - i,
        {
            if self.tree_has_dir_path(paths[i].as_str()) {
                has_dirs = true;
            }
            i += 1;
        }
        self.input_mode = InputMode::Confirm(
            ConfirmAction::Delete(DeleteInfo { paths, has_directories: has_dirs }),
        );
    }

    /// Turn the operative paths into delete operations and drop the marks.
    pub fn execute_delete(&mut self) -> (r: Vec<FsAction>)
        requires
            old(self).wf(),
        ensures
            final(self).wf(),
            r@.len() == old(self).operative_strings().len(),
            forall|i: int|
                0 <= i < r@.len() ==> ((#[trigger] r@[i]) matches FsAction::DeletePath { path }
                    && path@ == old(self).operative_strings()[i]@),
            final(self).marked@.len() == 0,
            final(self).tree == old(self).tree,
            final(self).selected == old(self).selected,
            final(self).clipboard == old(self).clipboard,
            final(self).input_mode == old(self).input_mode,
    {
        let paths = self.get_selected_paths();
        let mut actions: Vec<FsAction> = Vec::new();
        let n = paths.len();
        let mut i: usize = 0;
        while i < n
            invariant
                n == paths@.len(),
                paths@ == old(self).operative_strings(),
                i <= n,
                actions@.len() == i,
                forall|k: int|
                    0 <= k < i ==> ((#[trigger] actions@[k]) matches FsAction::DeletePath { path }
                        && path@ == paths@[k]@),
            decreases n - i,
        {
            actions.push(FsAction::DeletePath { path: paths[i].clone() });
            i += 1;
        }
        self.clear_marks();
        actions
    }

    /// Enter rename mode seeded with the current name.
    pub fn start_rename(&mut self)
        requires
            old(self).wf(),
        ensures
            final(self).wf(),
            *final(self) == (App {
                input_mode: InputMode::Rename,
                input_buffer: final(self).input_buffer,
                ..*old(self)
            }),
            final(self).input_buffer == old(self).tree.node_at(old(self).selected as int).name,
    {
        self.input_buffer = self.tree.nodes[self.selected].name.clone();
        self.input_mode = InputMode::Rename;
    }

    pub fn start_new_file(&mut self)
        ensures
            *final(self) == (App {
                input_mode: InputMode::NewFile,
                input_buffer: final(self).input_buffer,
                ..*old(self)
            }),
            final(self).input_buffer@.len() == 0,
    {
        self.input_buffer = String::new();
        self.input_mode = InputMode::NewFile;
    }

    pub fn start_new_dir(&mut self)
        ensures
            *final(self) == (App {
                input_mode: InputMode::NewDir,
                input_buffer: final(self).input_buffer,
                ..*old(self)
            }),
            final(self).input_buffer@.len() == 0,
    {
        self.input_buffer = String::new();
        self.input_mode = InputMode::NewDir;
    }

    pub fn start_external_command(&mut self)
        ensures
            *final(self) == (App {
                input_mode: InputMode::ExternalCommand,
                input_buffer: final(self).input_buffer,
                history_index: None,
                ..*old(self)
            }),
            final(self).input_buffer@.len() == 0,
    {
        self.input_buffer = String::new();
        self.history_index = None;
        self.input_mode = InputMode::ExternalCommand;
    }

    /// Leave any input mode, discarding the buffer. Nothing else changes:
    /// declining a pending delete leaves tree and filesystem untouched.
    pub fn cancel_input(&mut self)
        ensures
            *final(self) == (App {
                input_mode: InputMode::Normal,
                input_buffer: final(self).input_buffer,
                ..*old(self)
            }),
            final(self).input_buffer@.len() == 0,
    {
        self.input_buffer = String::new();
        self.input_mode = InputMode::Normal;
    }

    /// Record the outcome of a rename: on success, rescan and move the
    /// cursor to the renamed entry's new path.
    pub fn apply_rename_result(&mut self, outcome: Result<String, OpError>, fs: &FsSnapshot)
        requires
            old(self).wf(),
        ensures
            final(self).wf(),
            final(self).marked == old(self).marked,
            final(self).clipboard == old(self).clipboard,
            outcome matches Ok(p) ==> (final(self).message matches Some(m) && m@ == "Renamed to "@
                + p@) && (fs.has_listing(old(self).tree.root.path@) && final(self).tree.has_path(
                p@,
            ) ==> final(self).sel_path() == p@) && (fs.has_listing(old(self).tree.root.path@)
                ==> tree_mirrors_root_listing(final(self).tree, *fs, old(self).tree.root.path@)),
            outcome matches Err(e) ==> final(self).tree == old(self).tree && final(self).message
                is Some && (e == OpError::NameCollision ==> (final(self).message matches Some(m)
                && m@ == "Error: name already exists"@)),
    {
        match outcome {
            Ok(new_path) => {
                self.message = Some(
                    String::from_str("Renamed to ").concat(new_path.as_str()),
                );
                let _ = self.refresh_tree(fs);
                self.select_path(new_path.as_str());
            },
            Err(e) => {
                self.message = Some(error_message(e));
            },
        }
    }

    /// Record the outcome of a create: on success, rescan and select the
    /// new entry.
    pub fn apply_create_result(&mut self, outcome: Result<String, OpError>, fs: &FsSnapshot)
        requires
            old(self).wf(),
        ensures
            final(self).wf(),
            final(self).marked == old(self).marked,
            final(self).clipboard == old(self).clipboard,
            outcome matches Ok(p) ==> (final(self).message matches Some(m) && m@ == "Created "@
                + p@) && (fs.has_listing(old(self).tree.root.path@) && final(self).tree.has_path(
                p@,
            ) ==> final(self).sel_path() == p@) && (fs.has_listing(old(self).tree.root.path@)
                ==> tree_mirrors_root_listing(final(self).tree, *fs, old(self).tree.root.path@)),
            outcome matches Err(e) ==> final(self).tree == old(self).tree && final(self).message
                is Some && (e == OpError::NameCollision ==> (final(self).message matches Some(m)
                && m@ == "Error: name already exists"@)),
    {
        match outcome {
            Ok(new_path) => {
                self.message = Some(String::from_str("Created ").concat(new_path.as_str()));
                let _ = self.refresh_tree(fs);
                self.select_path(new_path.as_str());
            },
            Err(e) => {
                self.message = Some(error_message(e));
            },
        }
    }

    /// Record how many of the pasted items succeeded, then rescan. The
    /// cursor follows its path across the rescan.
    pub fn apply_paste_result(&mut self, success: u64, fs: &FsSnapshot)
        requires
            old(self).wf(),
        ensures
            final(self).wf(),
            final(self).marked == old(self).marked,
            final(self).clipboard == old(self).clipboard,
            final(self).message matches Some(m) && m@ == "Pasted "@ + dec_rep(success as int)
                + " item(s)"@,
            fs.has_listing(old(self).tree.root.path@) && final(self).tree.has_path(
                old(self).sel_path(),
            ) ==> final(self).sel_path() == old(self).sel_path(),
            fs.has_listing(old(self).tree.root.path@) ==> tree_mirrors_root_listing(
                final(self).tree,
                *fs,
                old(self).tree.root.path@,
            ),
    {
        self.message = Some(count_message("Pasted ", success, " item(s)"));
        let _ = self.refresh_tree(fs);
    }

    /// Record how many deletions succeeded, then rescan; a cursor whose
    /// entry vanished falls back to the nearest index.
    pub fn apply_delete_result(&mut self, success: u64, fs: &FsSnapshot)
        requires
            old(self).wf(),
        ensures
            final(self).wf(),
            final(self).marked == old(self).marked,
            final(self).clipboard == old(self).clipboard,
            final(self).message matches Some(m) && m@ == "Deleted "@ + dec_rep(success as int)
                + " item(s)"@,
            fs.has_listing(old(self).tree.root.path@) && final(self).tree.has_path(
                old(self).sel_path(),
            ) ==> final(self).sel_path() == old(self).sel_path(),
            fs.has_listing(old(self).tree.root.path@) ==> tree_mirrors_root_listing(
                final(self).tree,
                *fs,
                old(self).tree.root.path@,
            ),
    {
        self.message = Some(count_message("Deleted ", success, " item(s)"));
        let _ = self.refresh_tree(fs);
    }

    /// Record how many dropped paths were copied in, then rescan.
    pub fn apply_drop_result(&mut self, success: u64, fs: &FsSnapshot)
        requires
            old(self).wf(),
        ensures
            final(self).wf(),
            final(self).marked == old(self).marked,
            final(self).clipboard == old(self).clipboard,
            final(self).message matches Some(m) && m@ == "Dropped "@ + dec_rep(success as int)
                + " item(s)"@,
            fs.has_listing(old(self).tree.root.path@) && final(self).tree.has_path(
                old(self).sel_path(),
            ) ==> final(self).sel_path() == old(self).sel_path(),
            fs.has_listing(old(self).tree.root.path@) ==> tree_mirrors_root_listing(
                final(self).tree,
                *fs,
                old(self).tree.root.path@,
            ),
    {
        self.message = Some(count_message("Dropped ", success, " item(s)"));
        let _ = self.refresh_tree(fs);
    }

    /// Step back through the command history.
    pub fn history_prev(&mut self)
        ensures
            old(self).command_history@.len() == 0 ==> *final(self) == *old(self),
            old(self).command_history@.len() > 0 ==> {
                &&& final(self).history_index == Some(
                    ({
                        let raw = match old(self).history_index {
                            None => (old(self).command_history@.len() - 1) as usize,
                            Some(i) => if i > 0 {
                                (i - 1) as usize
                            } else {
                                0usize
                            },
                        };
                        if (raw as int) < old(self).command_history@.len() {
                            raw
                        } else {
                            (old(self).command_history@.len() - 1) as usize
                        }
                    }),
                )
                &&& final(self).history_index matches Some(k) && (k as int)
                    < old(self).command_history@.len() && final(self).input_buffer == old(self).command_history@[k as int]
                &&& *final(self) == (App {
                    input_buffer: final(self).input_buffer,
                    history_index: final(self).history_index,
                    ..*old(self)
                })
            },
    {
        let n = self.command_history.len();
        if n == 0 {
            return ;
        }
        let raw: usize = match self.history_index {
            None => n - 1,
            Some(i) => if i > 0 {
                i - 1
            } else {
                0
            },
        };
        let idx: usize = if raw < n {
            raw
        } else {
            n - 1
        };
        self.input_buffer = self.command_history[idx].clone();
        self.history_index = Some(idx);
    }

    /// Step forward through the command history, ending on an empty buffer.
    pub fn history_next(&mut self)
        ensures
            old(self).command_history@.len() == 0 ==> *final(self) == *old(self),
            old(self).command_history@.len() > 0 ==> *final(self) == (App {
                input_buffer: final(self).input_buffer,
                history_index: final(self).history_index,
                ..*old(self)
            }),
            old(self).command_history@.len() > 0 ==> match old(self).history_index {
                None => final(self).history_index is None && final(self).input_buffer == old(self).input_buffer,
                Some(i) => {
                    if i + 1 >= old(self).command_history@.len() {
                        final(self).history_index is None && final(self).input_buffer@.len() == 0
                    } else {
                        final(self).history_index == Some((i + 1) as usize) && final(self).input_buffer == old(self).command_history@[i + 1]
                    }
                },
            },
    {
        let n = self.command_history.len();
        if n == 0 {
            return ;
        }
        match self.history_index {
            None => {},
            Some(i) => {
                if i >= n - 1 {
                    self.input_buffer = String::new();
                    self.history_index = None;
                } else {
                    let idx = i + 1;
                    self.input_buffer = self.command_history[idx].clone();
                    self.history_index = Some(idx);
                }
            },
        }
    }

    /// Leave full-screen preview.
    pub fn close_preview(&mut self)
        ensures
            *final(self) == (App {
                input_mode: InputMode::Normal,
                preview_content: final(self).preview_content,
                preview_path: None,
                preview_scroll: 0usize,
                image_preview: None,
                ..*old(self)
            }),
            final(self).preview_content@.len() == 0,
    {
        self.input_mode = InputMode::Normal;
        self.preview_content = Vec::new();
        self.preview_path = None;
        self.preview_scroll = 0;
        self.image_preview = None;
    }

    /// Show text or hex lines full screen.
    pub fn open_preview_text(&mut self, path: String, lines: Vec<String>)
        ensures
            *final(self) == (App {
                input_mode: InputMode::Preview,
                preview_content: lines,
                preview_path: Some(path),
                preview_scroll: 0usize,
                image_preview: None,
                ..*old(self)
            }),
    {
        self.preview_content = lines;
        self.preview_scroll = 0;
        self.preview_path = Some(path);
        self.image_preview = None;
        self.input_mode = InputMode::Preview;
    }

    /// Show a decoded image full screen.
    pub fn open_preview_image(&mut self, path: String, image: ImagePreview)
        ensures
            final(self).input_mode == InputMode::Preview,
            final(self).preview_path == Some(path),
            final(self).preview_scroll == 0,
            final(self).preview_content@.len() == 0,
            final(self).image_preview is Some,
            final(self).tree == old(self).tree,
            final(self).marked == old(self).marked,
            final(self).selected == old(self).selected,
    {
        self.image_preview = Some(image);
        self.preview_path = Some(path);
        self.preview_content = Vec::new();
        self.preview_scroll = 0;
        self.input_mode = InputMode::Preview;
    }

    /// Flip the quick-preview panel; switching it off clears its state.
    pub fn toggle_quick_preview(&mut self)
        ensures
            final(self).quick_preview_enabled == !old(self).quick_preview_enabled,
            old(self).quick_preview_enabled ==> final(self).quick_preview_content@.len() == 0
                && final(self).quick_preview_path is None && final(self).quick_preview_scroll == 0
                && final(self).quick_preview_image is None,
            final(self).tree == old(self).tree,
            final(self).marked == old(self).marked,
            final(self).selected == old(self).selected,
            final(self).input_mode == old(self).input_mode,
    {
        if self.quick_preview_enabled {
            self.quick_preview_enabled = false;
            self.quick_preview_content = Vec::new();
            self.quick_preview_path = None;
            self.quick_preview_scroll = 0;
            self.quick_preview_image = None;
        } else {
            self.quick_preview_enabled = true;
        }
    }

    /// Fill the quick-preview panel with text or hex lines.
    pub fn set_quick_preview_text(&mut self, path: String, lines: Vec<String>)
        ensures
            *final(self) == (App {
                quick_preview_content: lines,
                quick_preview_path: Some(path),
                quick_preview_scroll: 0usize,
                quick_preview_image: None,
                ..*old(self)
            }),
    {
        self.quick_preview_content = lines;
        self.quick_preview_path = Some(path);
        self.quick_preview_scroll = 0;
        self.quick_preview_image = None;
    }

    /// Fill the quick-preview panel with a decoded image.
    pub fn set_quick_preview_image(&mut self, path: String, image: ImagePreview)
        ensures
            final(self).quick_preview_path == Some(path),
            final(self).quick_preview_scroll == 0,
            final(self).quick_preview_content@.len() == 0,
            final(self).quick_preview_image is Some,
            final(self).tree == old(self).tree,
            final(self).selected == old(self).selected,
    {
        self.quick_preview_image = Some(image);
        self.quick_preview_content = Vec::new();
        self.quick_preview_path = Some(path);
        self.quick_preview_scroll = 0;
    }

    pub fn quick_preview_scroll_up(&mut self)
        ensures
            *final(self) == (App {
                quick_preview_scroll: if old(self).quick_preview_scroll > 0 {
                    (old(self).quick_preview_scroll - 1) as usize
                } else {
                    0
                },
                ..*old(self)
            }),
    {
        if self.quick_preview_scroll > 0 {
            self.quick_preview_scroll = self.quick_preview_scroll - 1;
        }
    }

    pub fn quick_preview_scroll_down(&mut self, visible_height: usize)
        ensures
            *final(self) == (App {
                quick_preview_scroll: if old(self).quick_preview_scroll + visible_height < old(self).quick_preview_content@.len() {
                    (old(self).quick_preview_scroll + 1) as usize
                } else {
                    old(self).quick_preview_scroll
                },
                ..*old(self)
            }),
    {
        let n = self.quick_preview_content.len();
        if visible_height < n && self.quick_preview_scroll < n - visible_height {
            self.quick_preview_scroll = self.quick_preview_scroll + 1;
        }
    }

    pub fn preview_scroll_up(&mut self)
        ensures
            *final(self) == (App {
                preview_scroll: if old(self).preview_scroll > 0 {
                    (old(self).preview_scroll - 1) as usize
                } else {
                    0
                },
                ..*old(self)
            }),
    {
        if self.preview_scroll > 0 {
            self.preview_scroll = self.preview_scroll - 1;
        }
    }

    pub fn preview_scroll_down(&mut self, visible_height: usize)
        ensures
            *final(self) == (App {
                preview_scroll: if old(self).preview_scroll + visible_height < old(self).preview_content@.len() {
                    (old(self).preview_scroll + 1) as usize
                } else {
                    old(self).preview_scroll
                },
                ..*old(self)
            }),
    {
        let n = self.preview_content.len();
        if visible_height < n && self.preview_scroll < n - visible_height {
            self.preview_scroll = self.preview_scroll + 1;
        }
    }

    pub fn preview_page_up(&mut self, visible_height: usize)
        ensures
            *final(self) == (App {
                preview_scroll: if old(self).preview_scroll >= visible_height {
                    (old(self).preview_scroll - visible_height) as usize
                } else {
                    0
                },
                ..*old(self)
            }),
    {
        if self.preview_scroll >= visible_height {
            self.preview_scroll = self.preview_scroll - visible_height;
        } else {
            self.preview_scroll = 0;
        }
    }

    pub fn preview_page_down(&mut self, visible_height: usize)
        ensures
            final(self).preview_scroll == (if old(self).preview_content@.len() >= visible_height {
                if old(self).preview_scroll + visible_height <= old(self).preview_content@.len()
                    - visible_height {
                    old(self).preview_scroll + visible_height
                } else {
                    old(self).preview_content@.len() - visible_height
                }
            } else {
                0int
            }),
            *final(self) == (App { preview_scroll: final(self).preview_scroll, ..*old(self) }),
    {
        let n = self.preview_content.len();
        let max_scroll: usize = if n >= visible_height {
            n - visible_height
        } else {
            0
        };
        if visible_height <= usize::MAX - self.preview_scroll && self.preview_scroll
            + visible_height <= max_scroll {
            self.preview_scroll = self.preview_scroll + visible_height;
        } else {
            self.preview_scroll = max_scroll;
        }
    }

    /// The selected entry's absolute path, for the system clipboard.
    pub fn copy_path(&self) -> (r: String)
        requires
            self.wf(),
        ensures
            r == self.tree.node_at(self.selected as int).path,
    {
        self.nodes_path_clone(self.selected)
    }

    /// The selected entry's bare name, for the system clipboard.
    pub fn copy_filename(&self) -> (r: String)
        requires
            self.wf(),
        ensures
            r == self.tree.node_at(self.selected as int).name,
    {
        self.tree.nodes[self.selected].name.clone()
    }

    /// Remember one typed or pasted character; a long pause starts a fresh
    /// buffer, which is how a burst of pasted characters is told apart from
    /// typing.
    pub fn buffer_char(&mut self, c: char, now_ms: u64)
        ensures
            final(self).drop_buffer@ == (if now_ms >= old(self).last_char_ms && now_ms - old(self).last_char_ms > 50 {
                seq![c]
            } else {
                old(self).drop_buffer@.push(c)
            }),
            final(self).last_char_ms == now_ms,
            *final(self) == (App {
                drop_buffer: final(self).drop_buffer,
                last_char_ms: now_ms,
                ..*old(self)
            }),
    {
        if now_ms >= self.last_char_ms && now_ms - self.last_char_ms > 50 {
            self.drop_buffer = String::new();
        }
        push_char(&mut self.drop_buffer, c);
        self.last_char_ms = now_ms;
    }

    /// Select a clicked row; a second click on the same row within the
    /// double-click window toggles expansion.
    pub fn handle_click(&mut self, row: u16, now_ms: u64, fs: &FsSnapshot)
        requires
            old(self).wf(),
        ensures
            final(self).wf(),
            final(self).marked == old(self).marked,
            final(self).clipboard == old(self).clipboard,
            old(self).scroll_offset + row >= old(self).tree.spec_len() ==> *final(self) == *old(self),
            old(self).scroll_offset + row < old(self).tree.spec_len() ==> final(self).last_click_index == Some((old(self).scroll_offset + row) as usize) && final(self).last_click_ms == now_ms,
            ({
                let index = old(self).scroll_offset + row;
                let dbl = old(self).last_click_index == Some(index as usize) && now_ms >= old(self).last_click_ms && now_ms - old(self).last_click_ms < 400;
                &&& (index < old(self).tree.spec_len() && !dbl) ==> final(self).selected == index
                    && final(self).tree == old(self).tree
                &&& (index < old(self).tree.spec_len() && dbl) ==> (final(self).tree.has_path(
                    old(self).tree.node_at(index as int).path@,
                ) ==> final(self).sel_path() == old(self).tree.node_at(index as int).path@)
            }),
    {
        let n = self.tree.len();
        if row as usize > usize::MAX - self.scroll_offset {
            proof {
                assert(old(self).scroll_offset + row > usize::MAX);
                assert(old(self).tree.spec_len() <= usize::MAX);
            }
            return ;
        }
        let index = self.scroll_offset + row as usize;
        if index >= n {
            return ;
        }
        let is_double = match self.last_click_index {
            Some(prev) => prev == index && now_ms >= self.last_click_ms && now_ms
                - self.last_click_ms < 400,
            None => false,
        };
        self.selected = index;
        self.last_click_ms = now_ms;
        self.last_click_index = Some(index);
        if is_double {
            self.toggle_expand(fs);
        }
    }

    /// Find the next entry whose name contains the query, scanning down
    /// from the cursor and wrapping around.
    pub fn search_next(&mut self)
        requires
            old(self).wf(),
        ensures
            final(self).wf(),
            final(self).tree == old(self).tree,
            final(self).marked == old(self).marked,
            final(self).clipboard == old(self).clipboard,
            final(self).input_mode == old(self).input_mode,
            final(self).input_buffer == old(self).input_buffer,
            old(self).input_buffer@.len() == 0 ==> *final(self) == *old(self),
            old(self).input_buffer@.len() > 0 && (exists|i: int|
                0 <= i < old(self).tree.spec_len() && name_matches(
                    old(self).tree,
                    i,
                    old(self).input_buffer@,
                )) ==> name_matches(
                old(self).tree,
                final(self).selected as int,
                old(self).input_buffer@,
            ),
            old(self).input_buffer@.len() > 0 && !(exists|i: int|
                0 <= i < old(self).tree.spec_len() && name_matches(
                    old(self).tree,
                    i,
                    old(self).input_buffer@,
                )) ==> final(self).selected == old(self).selected && (final(self).message
                matches Some(m) && m@ == "No match found"@),
            old(self).input_buffer@.len() > 0 && (exists|i: int|
                old(self).selected < i < old(self).tree.spec_len() && name_matches(
                    old(self).tree,
                    i,
                    old(self).input_buffer@,
                )) ==> old(self).selected < final(self).selected && name_matches(
                old(self).tree,
                final(self).selected as int,
                old(self).input_buffer@,
            ) && (forall|j: int|
                old(self).selected < j < final(self).selected ==> !name_matches(
                    old(self).tree,
                    j,
                    old(self).input_buffer@,
                )),
            old(self).input_buffer@.len() > 0 && !(exists|i: int|
                old(self).selected < i < old(self).tree.spec_len() && name_matches(
                    old(self).tree,
                    i,
                    old(self).input_buffer@,
                )) && (exists|i: int|
                0 <= i <= old(self).selected && name_matches(
                    old(self).tree,
                    i,
                    old(self).input_buffer@,
                )) ==> final(self).selected <= old(self).selected && name_matches(
                old(self).tree,
                final(self).selected as int,
                old(self).input_buffer@,
            ) && (forall|j: int|
                0 <= j < final(self).selected ==> !name_matches(
                    old(self).tree,
                    j,
                    old(self).input_buffer@,
                )),
    {
        let qn = self.input_buffer.as_str().unicode_len();
        if qn == 0 {
            return ;
        }
        let query = lower_string(self.input_buffer.as_str());
        let n = self.tree.len();
        let start = self.selected;
        let mut i: usize = start + 1;
        while i < n
            invariant
                self.wf(),
                *self == *old(self),
                n == self.tree.spec_len(),
                start == self.selected,
                start + 1 <= i <= n,
                old(self).input_buffer@.len() > 0,
                query@ == lower_seq(old(self).input_buffer@),
                forall|j: int| start < j < i ==> !name_matches(self.tree, j, old(self).input_buffer@),
            decreases n - i,
        {
            if name_contains_query(&self.tree, i, query.as_str()) {
                self.selected = i;
                return ;
            }
            i += 1;
        }
        let mut k: usize = 0;
        while k <= start
            invariant
                self.wf(),
                *self == *old(self),
                n == self.tree.spec_len(),
                start == self.selected,
                start < n,
                k <= start + 1,
                old(self).input_buffer@.len() > 0,
                query@ == lower_seq(old(self).input_buffer@),
                forall|j: int|
                    start < j < n ==> !name_matches(self.tree, j, old(self).input_buffer@),
                forall|j: int| 0 <= j < k ==> !name_matches(self.tree, j, old(self).input_buffer@),
            decreases start + 1 - k,
        {
            if name_contains_query(&self.tree, k, query.as_str()) {
                self.selected = k;
                return ;
            }
            k += 1;
        }
        self.message = Some(String::from_str("No match found"));
    }
}

/// ASCII lowercasing, character by character.
pub open spec fn lower_char(c: char) -> char {
    if 'A' <= c <= 'Z' {
        ((c as u8) + 32) as char
    } else {
        c
    }
}

pub open spec fn lower_seq(s: Seq<char>) -> Seq<char> {
    s.map_values(|c: char| lower_char(c))
}

/// Entry `i`'s lowercased name contains the lowercased query.
pub open spec fn name_matches(t: FileTree, i: int, query: Seq<char>) -> bool {
    contains_seq(lower_seq(t.node_at(i).name@), lower_seq(query))
}

/// `needle` occurs inside `hay` starting at `k`.
pub open spec fn seq_at(hay: Seq<char>, needle: Seq<char>, k: int) -> bool {
    0 <= k && k + needle.len() <= hay.len() && hay.subrange(k, k + needle.len()) == needle
}

pub open spec fn contains_seq(hay: Seq<char>, needle: Seq<char>) -> bool {
    exists|k: int| seq_at(hay, needle, k)
}

fn lower_char_exec(c: char) -> (r: char)
    ensures
        r == lower_char(c),
{
    if 'A' <= c && c <= 'Z' {
        ((c as u8) + 32) as char
    } else {
        c
    }
}

/// Lowercase a string character by character.
pub fn lower_string(s: &str) -> (r: String)
    ensures
        r@ == lower_seq(s@),
{
    let n = s.unicode_len();
    let mut out = String::new();
    let mut i: usize = 0;
    while i < n
        invariant
            n == s@.len(),
            i <= n,
            out@ == lower_seq(s@.take(i as int)),
        decreases n - i,
    {
        let ghost prev = out@;
        push_char(&mut out, lower_char_exec(s.get_char(i)));
        proof {
            assert(out@ =~= lower_seq(s@.take(i + 1))) by {
                assert(s@.take(i + 1).drop_last() =~= s@.take(i as int));
                assert(lower_seq(s@.take(i + 1)) =~= lower_seq(s@.take(i as int)).push(
                    lower_char(s@[i as int]),
                ));
            }
        }
        i += 1;
    }
    proof {
        assert(s@.take(n as int) =~= s@);
    }
    out
}

/// Substring search deciding `contains_seq`.
pub fn str_contains(hay: &str, needle: &str) -> (r: bool)
    ensures
        r == contains_seq(hay@, needle@),
{
    let nh = hay.unicode_len();
    let nn = needle.unicode_len();
    if nn > nh {
        return false;
    }
    let mut k: usize = 0;
    while k <= nh - nn
        invariant
            nh == hay@.len(),
            nn == needle@.len(),
            nn <= nh,
            k <= nh - nn + 1,
            forall|k2: int| 0 <= k2 < k ==> !seq_at(hay@, needle@, k2),
        decreases nh - nn + 1 - k,
    {
        let mut j: usize = 0;
        let mut all: bool = true;
        while j < nn
            invariant
                nh == hay@.len(),
                nn == needle@.len(),
                k + nn <= nh,
                j <= nn,
                all == (forall|j2: int| 0 <= j2 < j ==> hay@[k + j2] == needle@[j2]),
            decreases nn - j,
        {
            if hay.get_char(k + j) != needle.get_char(j) {
                all = false;
            }
            j += 1;
        }
        if all {
            proof {
                assert(hay@.subrange(k as int, k + needle@.len()) =~= needle@);
                assert(seq_at(hay@, needle@, k as int));
            }
            return true;
        }
        proof {
            if seq_at(hay@, needle@, k as int) {
                assert(forall|j2: int|
                    0 <= j2 < nn ==> #[trigger] hay@.subrange(k as int, k + needle@.len())[j2]
                        == hay@[k + j2]);
            }
        }
        k += 1;
    }
    proof {
        assert forall|k2: int| !seq_at(hay@, needle@, k2) by {
            if seq_at(hay@, needle@, k2) {
                assert(0 <= k2 <= nh - nn);
            }
        }
    }
    false
}

/// Decide `name_matches` for one entry.
fn name_contains_query(t: &FileTree, i: usize, lowered_query: &str) -> (r: bool)
    requires
        t.wf(),
        (i as int) < t.spec_len(),
    ensures
        forall|q: Seq<char>|
            lowered_query@ == lower_seq(q) ==> r == name_matches(*t, i as int, q),
{
    let lowered = lower_string(t.nodes[i].name.as_str());
    let r = str_contains(lowered.as_str(), lowered_query);
    proof {
        assert forall|q: Seq<char>|
            lowered_query@ == lower_seq(q) implies r == name_matches(*t, i as int, q) by {}
    }
    r
}

/// Whitespace for the purposes of input trimming.
pub open spec fn is_ws(c: char) -> bool {
    c == ' ' || c == '\t' || c == '\n' || c == '\r'
}

pub open spec fn trim_front(s: Seq<char>) -> Seq<char>
    decreases s.len(),
{
    if s.len() > 0 && is_ws(s[0]) {
        trim_front(s.drop_first())
    } else {
        s
    }
}

pub open spec fn trim_back(s: Seq<char>) -> Seq<char>
    decreases s.len(),
{
    if s.len() > 0 && is_ws(s.last()) {
        trim_back(s.drop_last())
    } else {
        s
    }
}

pub open spec fn trim_seq(s: Seq<char>) -> Seq<char> {
    trim_back(trim_front(s))
}

proof fn lemma_trim_front_skip(s: Seq<char>, a: int)
    requires
        0 <= a <= s.len(),
        forall|j: int| 0 <= j < a ==> is_ws(s[j]),
        a < s.len() ==> !is_ws(s[a]),
    ensures
        trim_front(s) == s.skip(a),
    decreases a,
{
    if a == 0 {
        assert(s.skip(0) =~= s);
    } else {
        assert(is_ws(s[0]));
        assert(forall|j: int| 0 <= j < a - 1 ==> s.drop_first()[j] == s[j + 1]);
        lemma_trim_front_skip(s.drop_first(), a - 1);
        assert(s.drop_first().skip(a - 1) =~= s.skip(a));
    }
}

proof fn lemma_trim_back_take(s: Seq<char>, b: int)
    requires
        0 <= b <= s.len(),
        forall|j: int| b <= j < s.len() ==> is_ws(s[j]),
        b > 0 ==> !is_ws(s[b - 1]),
    ensures
        trim_back(s) == s.take(b),
    decreases s.len(),
{
    if b == s.len() {
        if s.len() > 0 && is_ws(s.last()) {
            lemma_trim_back_take(s.drop_last(), b - 1);
            assert(s.drop_last().take(b - 1) =~= s.take(b - 1));
            assert(s.take(b - 1) =~= s.drop_last());
        } else {
            assert(s.take(b) =~= s);
        }
    } else {
        assert(is_ws(s.last()));
        lemma_trim_back_take(s.drop_last(), b);
        assert(s.drop_last().take(b) =~= s.take(b));
    }
}

fn is_ws_exec(c: char) -> (r: bool)
    ensures
        r == is_ws(c),
{
    c == ' ' || c == '\t' || c == '\n' || c == '\r'
}

/// Strip leading and trailing whitespace.
pub fn trim_str(s: &str) -> (r: String)
    ensures
        r@ == trim_seq(s@),
{
    let n = s.unicode_len();
    let mut a: usize = 0;
    while a < n && is_ws_exec(s.get_char(a))
        invariant
            n == s@.len(),
            a <= n,
            forall|j: int| 0 <= j < a ==> is_ws(s@[j]),
        decreases n - a,
    {
        a += 1;
    }
    proof {
        lemma_trim_front_skip(s@, a as int);
    }
    let mut b: usize = n;
    while b > a && is_ws_exec(s.get_char(b - 1))
        invariant
            n == s@.len(),
            a <= b <= n,
            forall|j: int| 0 <= j < a ==> is_ws(s@[j]),
            forall|j: int| b <= j < n ==> is_ws(s@[j]),
        decreases b,
    {
        b -= 1;
    }
    proof {
        let f = s@.skip(a as int);
        assert(forall|j: int| 0 <= j < f.len() ==> f[j] == s@[a + j]);
        if b == a {
            lemma_trim_back_take(f, 0);
        } else {
            lemma_trim_back_take(f, b - a);
        }
        assert(f.take(b - a) =~= s@.subrange(a as int, b as int));
    }
    String::from_str(s.substring_char(a, b))
}

/// The characters a backslash may protect in a shell-quoted path.
pub open spec fn shell_escapable(c: char) -> bool {
    c == ' ' || c == '\'' || c == '"' || c == '\\' || c == '(' || c == ')' || c == '[' || c
        == ']' || c == '&' || c == ';' || c == '!' || c == '$' || c == '`'
}

fn shell_escapable_exec(c: char) -> (r: bool)
    ensures
        r == shell_escapable(c),
{
    c == ' ' || c == '\'' || c == '"' || c == '\\' || c == '(' || c == ')' || c == '[' || c
        == ']' || c == '&' || c == ';' || c == '!' || c == '$' || c == '`'
}

/// One layer of matching surrounding quotes removed.
pub open spec fn strip_quotes(s: Seq<char>) -> Seq<char> {
    if s.len() >= 2 && ((s[0] == '\'' && s.last() == '\'') || (s[0] == '"' && s.last() == '"')) {
        s.subrange(1, s.len() - 1)
    } else {
        s
    }
}

/// Backslash escapes of shell metacharacters resolved.
pub open spec fn unescape(s: Seq<char>) -> Seq<char>
    decreases s.len(),
{
    if s.len() == 0 {
        Seq::empty()
    } else if s[0] == '\\' && s.len() >= 2 && shell_escapable(s[1]) {
        seq![s[1]] + unescape(s.skip(2))
    } else {
        seq![s[0]] + unescape(s.skip(1))
    }
}

/// What a piece of dropped text means as a path: trimmed, unquoted,
/// unescaped.
pub open spec fn normalize_spec(s: Seq<char>) -> Seq<char> {
    unescape(strip_quotes(trim_seq(s)))
}

/// A candidate counts when it is an absolute path that the caller found to
/// exist (`existing` lists those).
pub open spec fn keep_candidate(t: Seq<char>, existing: Seq<String>) -> bool {
    t.len() > 0 && t[0] == '/' && name_taken(existing, t)
}

pub open spec fn filter_candidates(ts: Seq<Seq<char>>, existing: Seq<String>) -> Seq<Seq<char>>
    decreases ts.len(),
{
    if ts.len() == 0 {
        Seq::empty()
    } else {
        filter_candidates(ts.drop_last(), existing) + if keep_candidate(ts.last(), existing) {
            seq![ts.last()]
        } else {
            Seq::empty()
        }
    }
}

/// Space-separated tokens with shell-style quoting and escaping, continuing
/// from an already accumulated token.
pub open spec fn tokenize(s: Seq<char>, cur: Seq<char>, in_q: bool, qc: char) -> Seq<Seq<char>>
    decreases s.len(),
{
    if s.len() == 0 {
        if cur.len() > 0 {
            seq![cur]
        } else {
            Seq::empty()
        }
    } else {
        let c = s[0];
        if c == '"' || c == '\'' {
            if in_q && c == qc {
                tokenize(s.skip(1), cur, false, qc)
            } else if !in_q {
                tokenize(s.skip(1), cur, true, c)
            } else {
                tokenize(s.skip(1), cur.push(c), in_q, qc)
            }
        } else if c == '\\' && !in_q {
            if s.len() >= 2 {
                tokenize(s.skip(2), cur.push(s[1]), in_q, qc)
            } else {
                tokenize(s.skip(1), cur, in_q, qc)
            }
        } else if c == ' ' && !in_q {
            if cur.len() > 0 {
                seq![cur] + tokenize(s.skip(1), Seq::empty(), in_q, qc)
            } else {
                tokenize(s.skip(1), cur, in_q, qc)
            }
        } else {
            tokenize(s.skip(1), cur.push(c), in_q, qc)
        }
    }
}

/// The paths a piece of dropped text resolves to: its lines when it has
/// newlines (each normalized), its shell tokens otherwise, in both cases
/// keeping only existing absolute paths.
pub open spec fn parsed_drop_paths(text: Seq<char>, existing: Seq<String>) -> Seq<Seq<char>> {
    let t = trim_seq(text);
    if t.contains('\n') {
        filter_candidates(
            split_on_newline(t, Seq::empty()).map_values(|l: Seq<char>| normalize_spec(l)),
            existing,
        )
    } else {
        filter_candidates(tokenize(t, Seq::empty(), false, '"'), existing)
    }
}

fn has_newline(s: &str) -> (r: bool)
    ensures
        r == s@.contains('\n'),
{
    let n = s.unicode_len();
    let mut i: usize = 0;
    while i < n
        invariant
            n == s@.len(),
            i <= n,
            forall|j: int| 0 <= j < i ==> s@[j] != '\n',
        decreases n - i,
    {
        if s.get_char(i) == '\n' {
            return true;
        }
        i += 1;
    }
    false
}

fn keep_candidate_exec(t: &str, existing: &Vec<String>) -> (r: bool)
    ensures
        r == keep_candidate(t@, existing@),
{
    let n = t.unicode_len();
    if n == 0 {
        return false;
    }
    if t.get_char(0) != '/' {
        return false;
    }
    crate::file_ops::name_in_list(existing, t)
}

/// Raw shell tokens of the text, quotes and escapes resolved.
fn tokenize_text(text: &str) -> (r: Vec<String>)
    ensures
        r@.map_values(|x: String| x@) == tokenize(text@, Seq::empty(), false, '"'),
{
    let n = text.unicode_len();
    let mut out: Vec<String> = Vec::new();
    let mut cur = String::new();
    let mut in_q: bool = false;
    let mut qc: char = '"';
    let mut i: usize = 0;
    proof {
        assert(text@.skip(0) =~= text@);
        assert(out@.map_values(|x: String| x@) + tokenize(text@, Seq::empty(), false, '"')
            =~= tokenize(text@, Seq::empty(), false, '"'));
    }
    while i < n
        invariant
            n == text@.len(),
            i <= n,
            tokenize(text@, Seq::empty(), false, '"') == out@.map_values(|x: String| x@)
                + tokenize(text@.skip(i as int), cur@, in_q, qc),
        decreases n - i,
    {
        let ghost rem = text@.skip(i as int);
        let ghost cur0 = cur@;
        let ghost out0 = out@.map_values(|x: String| x@);
        proof {
            assert(rem[0] == text@[i as int]);
            assert(rem.skip(1) =~= text@.skip(i + 1));
            if rem.len() >= 2 {
                assert(rem[1] == text@[i + 1]);
                assert(rem.skip(2) =~= text@.skip(i + 2));
            }
        }
        let c = text.get_char(i);
        if c == '"' || c == '\'' {
            if in_q && c == qc {
                in_q = false;
            } else if !in_q {
                in_q = true;
                qc = c;
            } else {
                push_char(&mut cur, c);
            }
            i += 1;
        } else if c == '\\' && !in_q {
            if i + 1 < n {
                push_char(&mut cur, text.get_char(i + 1));
                i += 2;
            } else {
                i += 1;
            }
        } else if c == ' ' && !in_q {
            if cur.as_str().unicode_len() > 0 {
                let mut done = String::new();
                core::mem::swap(&mut cur, &mut done);
                out.push(done);
                proof {
                    assert(tokenize(rem, cur0, in_q, qc) == seq![cur0] + tokenize(
                        text@.skip(i + 1),
                        Seq::empty(),
                        in_q,
                        qc,
                    ));
                    assert(out@.map_values(|x: String| x@) =~= out0 + seq![cur0]);
                    assert(out0 + (seq![cur0] + tokenize(text@.skip(i + 1), Seq::empty(), in_q, qc))
                        =~= out@.map_values(|x: String| x@) + tokenize(
                        text@.skip(i + 1),
                        Seq::empty(),
                        in_q,
                        qc,
                    ));
                }
            }
            i += 1;
        } else {
            push_char(&mut cur, c);
            i += 1;
        }
    }
    proof {
        assert(text@.skip(n as int) =~= Seq::<char>::empty());
    }
    if cur.as_str().unicode_len() > 0 {
        let ghost out0 = out@.map_values(|x: String| x@);
        let ghost cur0 = cur@;
        out.push(cur);
        proof {
            assert(out@.map_values(|x: String| x@) =~= out0 + seq![cur0]);
        }
    } else {
        proof {
            assert(out@.map_values(|x: String| x@) + Seq::<Seq<char>>::empty() =~= out@.map_values(
                |x: String| x@,
            ));
        }
    }
    out
}

impl App {
    /// Normalize one piece of dropped text into the path it denotes.
    pub fn normalize_dropped_path(text: &str) -> (r: String)
        ensures
            r@ == normalize_spec(text@),
    {
        let trimmed = trim_str(text);
        let tn = trimmed.as_str().unicode_len();
        let stripped: String = if tn >= 2 && ((trimmed.as_str().get_char(0) == '\''
            && trimmed.as_str().get_char(tn - 1) == '\'') || (trimmed.as_str().get_char(0) == '"'
            && trimmed.as_str().get_char(tn - 1) == '"')) {
            String::from_str(trimmed.as_str().substring_char(1, tn - 1))
        } else {
            trimmed
        };
        let s = stripped.as_str();
        let n = s.unicode_len();
        let mut out = String::new();
        let mut i: usize = 0;
        proof {
            assert(s@.skip(0) =~= s@);
            assert(out@ + unescape(s@) =~= unescape(s@));
        }
        while i < n
            invariant
                n == s@.len(),
                i <= n,
                unescape(s@) == out@ + unescape(s@.skip(i as int)),
            decreases n - i,
        {
            let ghost rem = s@.skip(i as int);
            let ghost out0 = out@;
            proof {
                assert(rem[0] == s@[i as int]);
                assert(rem.skip(1) =~= s@.skip(i + 1));
                if rem.len() >= 2 {
                    assert(rem[1] == s@[i + 1]);
                    assert(rem.skip(2) =~= s@.skip(i + 2));
                }
            }
            let c = s.get_char(i);
            if c == '\\' && i + 1 < n && shell_escapable_exec(s.get_char(i + 1)) {
                push_char(&mut out, s.get_char(i + 1));
                proof {
                    assert(out@ =~= out0 + seq![s@[i + 1]]);
                    assert(out0 + (seq![s@[i + 1]] + unescape(s@.skip(i + 2))) =~= out@ + unescape(
                        s@.skip(i + 2),
                    ));
                }
                i += 2;
            } else {
                push_char(&mut out, c);
                proof {
                    assert(out@ =~= out0 + seq![s@[i as int]]);
                    assert(out0 + (seq![s@[i as int]] + unescape(s@.skip(i + 1))) =~= out@
                        + unescape(s@.skip(i + 1)));
                }
                i += 1;
            }
        }
        proof {
            assert(s@.skip(n as int) =~= Seq::<char>::empty());
            assert(out@ + Seq::<char>::empty() =~= out@);
        }
        out
    }

    /// All the paths hiding in a piece of dropped text: newline-separated
    /// lines, or shell-style space-separated tokens, filtered to the
    /// existing absolute paths the caller found.
    pub fn parse_dropped_paths(text: &str, existing: &Vec<String>) -> (r: Vec<String>)
        ensures
            r@.map_values(|x: String| x@) == parsed_drop_paths(text@, existing@),
    {
        let trimmed = trim_str(text);
        if has_newline(trimmed.as_str()) {
            let lines = crate::git_status::split_lines(trimmed.as_str());
            let ghost mapped = split_on_newline(trimmed@, Seq::empty()).map_values(
                |l: Seq<char>| normalize_spec(l),
            );
            let n = lines.len();
            let mut out: Vec<String> = Vec::new();
            let mut i: usize = 0;
            proof {
                assert(out@.map_values(|x: String| x@) =~= filter_candidates(
                    mapped.take(0),
                    existing@,
                ));
            }
            while i < n
                invariant
                    n == lines@.len(),
                    n == mapped.len(),
                    i <= n,
                    forall|k: int| 0 <= k < n ==> mapped[k] == normalize_spec(lines@[k]@),
                    out@.map_values(|x: String| x@) == filter_candidates(
                        mapped.take(i as int),
                        existing@,
                    ),
                decreases n - i,
            {
                let ghost out0 = out@.map_values(|x: String| x@);
                let norm = Self::normalize_dropped_path(lines[i].as_str());
                if keep_candidate_exec(norm.as_str(), existing) {
                    out.push(norm);
                    proof {
                        assert(out@.map_values(|x: String| x@) =~= out0 + seq![mapped[i as int]]);
                    }
                }
                proof {
                    assert(mapped.take(i + 1).drop_last() =~= mapped.take(i as int));
                    assert(mapped.take(i + 1).last() == mapped[i as int]);
                    if !keep_candidate(mapped[i as int], existing@) {
                        assert(out@.map_values(|x: String| x@) + Seq::<Seq<char>>::empty()
                            =~= out@.map_values(|x: String| x@));
                    }
                }
                i += 1;
            }
            proof {
                assert(mapped.take(n as int) =~= mapped);
            }
            out
        } else {
            let tokens = tokenize_text(trimmed.as_str());
            let ghost toks = tokenize(trimmed@, Seq::empty(), false, '"');
            let n = tokens.len();
            let mut out: Vec<String> = Vec::new();
            let mut i: usize = 0;
            proof {
                assert(out@.map_values(|x: String| x@) =~= filter_candidates(
                    toks.take(0),
                    existing@,
                ));
            }
            while i < n
                invariant
                    n == tokens@.len(),
                    n == toks.len(),
                    i <= n,
                    forall|k: int| 0 <= k < n ==> (#[trigger] toks[k]) == tokens@[k]@,
                    out@.map_values(|x: String| x@) == filter_candidates(
                        toks.take(i as int),
                        existing@,
                    ),
                decreases n - i,
            {
                let ghost out0 = out@.map_values(|x: String| x@);
                if keep_candidate_exec(tokens[i].as_str(), existing) {
                    out.push(tokens[i].clone());
                    proof {
                        assert(out@.map_values(|x: String| x@) =~= out0 + seq![toks[i as int]]);
                    }
                }
                proof {
                    assert(toks.take(i + 1).drop_last() =~= toks.take(i as int));
                    assert(toks.take(i + 1).last() == toks[i as int]);
                    if !keep_candidate(toks[i as int], existing@) {
                        assert(out@.map_values(|x: String| x@) + Seq::<Seq<char>>::empty()
                            =~= out@.map_values(|x: String| x@));
                    }
                }
                i += 1;
            }
            proof {
                assert(toks.take(n as int) =~= toks);
            }
            out
        }
    }

    /// Everything the drop heuristic may want to test for existence on
    /// disk: the normalized whole text first, then each parsed line or
    /// token. The caller checks these and passes back the existing ones.
    pub fn drop_candidates(text: &str) -> (r: Vec<String>)
        ensures
            r@.len() >= 1,
            r@[0]@ == normalize_spec(text@),
    {
        let mut out: Vec<String> = Vec::new();
        out.push(Self::normalize_dropped_path(text));
        let trimmed = trim_str(text);
        if has_newline(trimmed.as_str()) {
            let lines = crate::git_status::split_lines(trimmed.as_str());
            let n = lines.len();
            let mut i: usize = 0;
            while i < n
                invariant
                    n == lines@.len(),
                    i <= n,
                    out@.len() >= 1,
                    out@[0]@ == normalize_spec(text@),
                decreases n - i,
            {
                out.push(Self::normalize_dropped_path(lines[i].as_str()));
                i += 1;
            }
        } else {
            let tokens = tokenize_text(trimmed.as_str());
            let n = tokens.len();
            let mut i: usize = 0;
            while i < n
                invariant
                    n == tokens@.len(),
                    i <= n,
                    out@.len() >= 1,
                    out@[0]@ == normalize_spec(text@),
                decreases n - i,
            {
                out.push(tokens[i].clone());
                i += 1;
            }
        }
        out
    }

    /// Hand back the buffered burst of characters once input has been quiet
    /// long enough to interpret it, trimmed and cleared.
    pub fn check_drop_buffer(&mut self, now_ms: u64) -> (r: Option<String>)
        ensures
            (old(self).drop_buffer@.len() == 0 || now_ms < old(self).last_char_ms || now_ms - old(self).last_char_ms < 100) ==> r is None && *final(self) == *old(self),
            !(old(self).drop_buffer@.len() == 0 || now_ms < old(self).last_char_ms || now_ms - old(self).last_char_ms < 100) ==> (r matches Some(t) && t@ == trim_seq(old(self).drop_buffer@))
                && final(self).drop_buffer@.len() == 0 && *final(self) == (App {
                drop_buffer: final(self).drop_buffer,
                ..*old(self)
            }),
    {
        if self.drop_buffer.as_str().unicode_len() == 0 {
            return None;
        }
        if now_ms < self.last_char_ms || now_ms - self.last_char_ms < 100 {
            return None;
        }
        let text = trim_str(self.drop_buffer.as_str());
        self.drop_buffer = String::new();
        Some(text)
    }

    /// Interpret one quiet buffered burst: an existing absolute path is
    /// copied into the current destination; otherwise a leading `/` starts
    /// a search seeded with the rest of the burst.
    pub fn resolve_drop(&mut self, text: &str, existing: &Vec<String>) -> (r: Vec<FsAction>)
        requires
            old(self).wf(),
        ensures
            final(self).wf(),
            ({
                let norm = normalize_spec(text@);
                &&& keep_candidate(norm, existing@) ==> r@.len() == 1 && (r@[0]
                    matches FsAction::CopyInto { src, dest_dir } && src@ == norm && dest_dir@
                    == old(self).paste_dest_spec()) && *final(self) == *old(self)
                &&& !keep_candidate(norm, existing@) && text@.len() > 0 && text@[0] == '/' ==> r@.len()
                    == 0 && final(self).input_mode == InputMode::Search && final(self).input_buffer@ == text@.skip(1)
                &&& !keep_candidate(norm, existing@) && !(text@.len() > 0 && text@[0] == '/')
                    ==> r@.len() == 0 && *final(self) == *old(self)
            }),
    {
        let norm = Self::normalize_dropped_path(text);
        if keep_candidate_exec(norm.as_str(), existing) {
            let dest = match self.get_paste_destination() {
                Some(d) => d,
                None => {
                    return Vec::new();
                },
            };
            let mut actions: Vec<FsAction> = Vec::new();
            actions.push(FsAction::CopyInto { src: norm, dest_dir: dest });
            return actions;
        }
        let n = text.unicode_len();
        if n > 0 && text.get_char(0) == '/' {
            self.input_buffer = String::from_str(text.substring_char(1, n));
            self.input_mode = InputMode::Search;
        }
        Vec::new()
    }

    /// Try to read the committed search buffer as dropped paths; `None`
    /// means it was an ordinary query.
    fn try_handle_as_drop(&mut self, existing: &Vec<String>) -> (r: Option<Vec<FsAction>>)
        requires
            old(self).wf(),
        ensures
            final(self).wf(),
            *final(self) == *old(self),
            ({
                let norm = normalize_spec(old(self).input_buffer@);
                let parsed = parsed_drop_paths(old(self).input_buffer@, existing@);
                &&& !(norm.len() > 0 && norm[0] == '/') ==> r is None
                &&& keep_candidate(norm, existing@) ==> (r matches Some(acts) && acts@.len() == 1
                    && (acts@[0] matches FsAction::CopyInto { src, dest_dir } && src@ == norm
                    && dest_dir@ == old(self).paste_dest_spec()))
                &&& (norm.len() > 0 && norm[0] == '/' && !name_taken(existing@, norm)) ==> {
                    if parsed.len() > 0 {
                        r matches Some(acts) && acts@.len() == parsed.len() && (forall|i: int|
                            0 <= i < acts@.len() ==> ((#[trigger] acts@[i])
                                matches FsAction::CopyInto { src, dest_dir } && src@ == parsed[i]
                                && dest_dir@ == old(self).paste_dest_spec()))
                    } else {
                        r is None
                    }
                }
            }),
    {
        let norm = Self::normalize_dropped_path(self.input_buffer.as_str());
        let nn = norm.as_str().unicode_len();
        if !(nn > 0 && norm.as_str().get_char(0) == '/') {
            return None;
        }
        let dest = match self.get_paste_destination() {
            Some(d) => d,
            None => {
                return None;
            },
        };
        if crate::file_ops::name_in_list(existing, norm.as_str()) {
            let mut actions: Vec<FsAction> = Vec::new();
            actions.push(FsAction::CopyInto { src: norm, dest_dir: dest });
            return Some(actions);
        }
        let paths = Self::parse_dropped_paths(self.input_buffer.as_str(), existing);
        if paths.len() == 0 {
            return None;
        }
        let ghost parsed = parsed_drop_paths(old(self).input_buffer@, existing@);
        let mut actions: Vec<FsAction> = Vec::new();
        let n = paths.len();
        let mut i: usize = 0;
        while i < n
            invariant
                n == paths@.len(),
                i <= n,
                actions@.len() == i,
                dest@ == old(self).paste_dest_spec(),
                forall|k: int| 0 <= k < n ==> (#[trigger] paths@[k])@ == parsed[k],
                n == parsed.len(),
                forall|k: int|
                    0 <= k < i ==> ((#[trigger] actions@[k]) matches FsAction::CopyInto {
                        src,
                        dest_dir,
                    } && src@ == parsed[k] && dest_dir@ == dest@),
            decreases n - i,
        {
            actions.push(FsAction::CopyInto { src: paths[i].clone(), dest_dir: dest.clone() });
            i += 1;
        }
        Some(actions)
    }

    /// Copy every existing path named in explicitly dropped text into the
    /// current destination.
    pub fn handle_drop(&mut self, text: &str, existing: &Vec<String>) -> (r: Vec<FsAction>)
        requires
            old(self).wf(),
        ensures
            final(self).wf(),
            *final(self) == *old(self),
            ({
                let parsed = parsed_drop_paths(text@, existing@);
                &&& r@.len() == parsed.len()
                &&& forall|i: int|
                    0 <= i < r@.len() ==> ((#[trigger] r@[i]) matches FsAction::CopyInto {
                        src,
                        dest_dir,
                    } && src@ == parsed[i] && dest_dir@ == old(self).paste_dest_spec())
            }),
    {
        let ghost parsed = parsed_drop_paths(text@, existing@);
        let paths = Self::parse_dropped_paths(text, existing);
        let dest = match self.get_paste_destination() {
            Some(d) => d,
            None => {
                proof {
                    assert(false);
                }
                return Vec::new();
            },
        };
        let mut actions: Vec<FsAction> = Vec::new();
        let n = paths.len();
        let mut i: usize = 0;
        while i < n
            invariant
                n == paths@.len(),
                i <= n,
                actions@.len() == i,
                dest@ == old(self).paste_dest_spec(),
                n == parsed.len(),
                forall|k: int| 0 <= k < n ==> (#[trigger] paths@[k])@ == parsed[k],
                forall|k: int|
                    0 <= k < i ==> ((#[trigger] actions@[k]) matches FsAction::CopyInto {
                        src,
                        dest_dir,
                    } && src@ == parsed[k] && dest_dir@ == dest@),
            decreases n - i,
        {
            actions.push(FsAction::CopyInto { src: paths[i].clone(), dest_dir: dest.clone() });
            i += 1;
        }
        actions
    }

    /// Commit the input buffer according to the current mode, returning the
    /// work the caller must carry out. Renaming an entry to its own current
    /// name succeeds outright without touching the filesystem. The mode
    /// always returns to normal and the buffer is discarded.
    pub fn confirm_input(&mut self, existing: &Vec<String>) -> (r: PendingOp)
        requires
            old(self).wf(),
        ensures
            final(self).wf(),
            final(self).input_mode == InputMode::Normal,
            final(self).input_buffer@.len() == 0,
            old(self).input_mode == InputMode::Normal || old(self).input_mode == InputMode::Preview
                ==> r == PendingOp::DoNothing && final(self).tree == old(self).tree,
            old(self).input_mode == InputMode::Rename ==> ({
                let name = name_seq(old(self).sel_path());
                &&& old(self).input_buffer@ == name ==> r == PendingOp::DoNothing && final(self).tree == old(self).tree && final(self).message is Some
                &&& old(self).input_buffer@ != name ==> (r matches PendingOp::Rename(a) && (a
                    matches FsAction::RenamePath { path, new_name } && path@ == old(self).sel_path()
                    && new_name@ == old(self).input_buffer@))
            }),
            old(self).input_mode == InputMode::NewFile ==> (r matches PendingOp::Create(a) && (a
                matches FsAction::CreateFile { dir, name } && dir@ == old(self).paste_dest_spec()
                && name@ == old(self).input_buffer@)),
            old(self).input_mode == InputMode::NewDir ==> (r matches PendingOp::Create(a) && (a
                matches FsAction::CreateDir { dir, name } && dir@ == old(self).paste_dest_spec()
                && name@ == old(self).input_buffer@)),
            (old(self).input_mode matches InputMode::Confirm(c)) ==> ((r matches PendingOp::Delete(
                acts,
            ) && acts@.len() == old(self).operative_strings().len() && (forall|i: int|
                0 <= i < acts@.len() ==> ((#[trigger] acts@[i]) matches FsAction::DeletePath { path }
                    && path@ == old(self).operative_strings()[i]@))) && final(self).marked@.len()
                == 0),
            old(self).input_mode == InputMode::ExternalCommand ==> ((r
                matches PendingOp::RunCommand(c) && c@ == old(self).input_buffer@) && (old(self).input_buffer@.len() > 0 ==> final(self).command_history@ == remove_name(
                old(self).command_history@,
                old(self).input_buffer@,
            ).push(old(self).input_buffer))),
            old(self).input_mode == InputMode::Search ==> ({
                let norm = normalize_spec(old(self).input_buffer@);
                let parsed = parsed_drop_paths(old(self).input_buffer@, existing@);
                &&& keep_candidate(norm, existing@) ==> (r matches PendingOp::Drop(acts)
                    && acts@.len() == 1 && (acts@[0] matches FsAction::CopyInto { src, dest_dir }
                    && src@ == norm && dest_dir@ == old(self).paste_dest_spec()))
                &&& !(norm.len() > 0 && norm[0] == '/') ==> r == PendingOp::DoNothing
                &&& (norm.len() > 0 && norm[0] == '/' && !name_taken(existing@, norm)) ==> (if parsed.len() > 0 {
                    r matches PendingOp::Drop(acts) && acts@.len() == parsed.len() && (forall|i: int|
                        0 <= i < acts@.len() ==> ((#[trigger] acts@[i]) matches FsAction::CopyInto {
                            src,
                            dest_dir,
                        } && src@ == parsed[i] && dest_dir@ == old(self).paste_dest_spec()))
                } else {
                    r == PendingOp::DoNothing
                })
            }),
    {
        let mut mode = InputMode::Normal;
        core::mem::swap(&mut self.input_mode, &mut mode);
        let outcome: PendingOp = match mode {
            InputMode::Rename => {
                let path = self.nodes_path_clone(self.selected);
                match rename_decision(path.as_str(), self.input_buffer.as_str()) {
                    None => {
                        self.message = Some(
                            String::from_str("Renamed to ").concat(path.as_str()),
                        );
                        proof {
                            crate::paths::lemma_last_index_of_char(path@, '/');
                        }
                        PendingOp::DoNothing
                    },
                    Some(action) => PendingOp::Rename(action),
                }
            },
            InputMode::NewFile => {
                let dir = match self.get_paste_destination() {
                    Some(d) => d,
                    None => {
                        proof {
                            assert(false);
                        }
                        String::new()
                    },
                };
                let name = self.take_buffer();
                PendingOp::Create(FsAction::CreateFile { dir, name })
            },
            InputMode::NewDir => {
                let dir = match self.get_paste_destination() {
                    Some(d) => d,
                    None => {
                        proof {
                            assert(false);
                        }
                        String::new()
                    },
                };
                let name = self.take_buffer();
                PendingOp::Create(FsAction::CreateDir { dir, name })
            },
            InputMode::Search => {
                match self.try_handle_as_drop(existing) {
                    Some(actions) => PendingOp::Drop(actions),
                    None => {
                        self.search_next();
                        PendingOp::DoNothing
                    },
                }
            },
            InputMode::ExternalCommand => {
                let command = self.take_buffer();
                if command.as_str().unicode_len() > 0 {
                    self.history_dedup_push(command.clone());
                }
                PendingOp::RunCommand(command)
            },
            InputMode::Confirm(_) => {
                let actions = self.execute_delete();
                PendingOp::Delete(actions)
            },
            InputMode::Normal => PendingOp::DoNothing,
            InputMode::Preview => PendingOp::DoNothing,
        };
        self.input_buffer = String::new();
        self.input_mode = InputMode::Normal;
        outcome
    }

    /// Take the buffer's exact contents out.
    fn take_buffer(&mut self) -> (r: String)
        ensures
            r == old(self).input_buffer,
            *final(self) == (App { input_buffer: final(self).input_buffer, ..*old(self) }),
    {
        let mut b = String::new();
        core::mem::swap(&mut self.input_buffer, &mut b);
        b
    }

    /// Move `cmd` to the most recent end of the history, removing any older
    /// copy of it.
    fn history_dedup_push(&mut self, cmd: String)
        ensures
            final(self).command_history@ == remove_name(old(self).command_history@, cmd@).push(cmd),
            *final(self) == (App { command_history: final(self).command_history, ..*old(self) }),
    {
        let n = self.command_history.len();
        let mut kept: Vec<String> = Vec::new();
        let mut j: usize = 0;
        while j < n
            invariant
                n == self.command_history@.len(),
                j <= n,
                kept@ == remove_name(self.command_history@.take(j as int), cmd@),
                *self == *old(self),
            decreases n - j,
        {
            let ghost prev = kept@;
            if !str_eq(self.command_history[j].as_str(), cmd.as_str()) {
                kept.push(self.command_history[j].clone());
                proof {
                    assert(kept@ =~= prev + seq![self.command_history@[j as int]]);
                }
            }
            proof {
                assert(self.command_history@.take(j + 1).drop_last() =~= self.command_history@.take(
                    j as int,
                ));
                assert(self.command_history@.take(j + 1).last() == self.command_history@[j as int]);
                assert(kept@ =~= remove_name(self.command_history@.take(j + 1), cmd@));
            }
            j += 1;
        }
        proof {
            assert(self.command_history@.take(n as int) =~= self.command_history@);
        }
        kept.push(cmd);
        self.command_history = kept;
    }
}

/// A hexadecimal digit character.
pub open spec fn hex_digit_char(n: int) -> char {
    if n < 10 {
        crate::paths::dec_digit(n)
    } else if n == 10 {
        'a'
    } else if n == 11 {
        'b'
    } else if n == 12 {
        'c'
    } else if n == 13 {
        'd'
    } else if n == 14 {
        'e'
    } else {
        'f'
    }
}

pub open spec fn hex_pair(b: u8) -> Seq<char> {
    seq![hex_digit_char(b as int / 16), hex_digit_char(b as int % 16)]
}

/// The hex column of one chunk: two digits per byte, space separated.
pub open spec fn hex_cells(chunk: Seq<u8>) -> Seq<char>
    decreases chunk.len(),
{
    if chunk.len() == 0 {
        Seq::empty()
    } else if chunk.len() == 1 {
        hex_pair(chunk[0])
    } else {
        hex_cells(chunk.drop_last()) + seq![' '] + hex_pair(chunk.last())
    }
}

pub open spec fn space_run(n: int) -> Seq<char>
    decreases n,
{
    if n <= 0 {
        Seq::empty()
    } else {
        space_run(n - 1).push(' ')
    }
}

/// The character column: printable bytes as themselves, the rest as dots.
pub open spec fn ascii_cell(b: u8) -> char {
    if b == 32 || (33 <= b && b <= 126) {
        b as char
    } else {
        '.'
    }
}

/// One preview line: the hex column padded to 48 characters, a space, then
/// the character column.
pub open spec fn hex_line(chunk: Seq<u8>) -> Seq<char> {
    hex_cells(chunk) + space_run(48 - hex_cells(chunk).len()) + seq![' '] + chunk.map_values(
        |b: u8| ascii_cell(b),
    )
}

proof fn lemma_hex_cells_len(chunk: Seq<u8>)
    ensures
        chunk.len() == 0 ==> hex_cells(chunk).len() == 0,
        chunk.len() > 0 ==> hex_cells(chunk).len() == 3 * chunk.len() - 1,
    decreases chunk.len(),
{
    if chunk.len() > 1 {
        lemma_hex_cells_len(chunk.drop_last());
    }
}

fn hex_digit_exec(n: u8) -> (r: char)
    requires
        n < 16,
    ensures
        r == hex_digit_char(n as int),
{
    if n == 0 {
        '0'
    } else if n == 1 {
        '1'
    } else if n == 2 {
        '2'
    } else if n == 3 {
        '3'
    } else if n == 4 {
        '4'
    } else if n == 5 {
        '5'
    } else if n == 6 {
        '6'
    } else if n == 7 {
        '7'
    } else if n == 8 {
        '8'
    } else if n == 9 {
        '9'
    } else if n == 10 {
        'a'
    } else if n == 11 {
        'b'
    } else if n == 12 {
        'c'
    } else if n == 13 {
        'd'
    } else if n == 14 {
        'e'
    } else {
        'f'
    }
}

fn ascii_cell_exec(b: u8) -> (r: char)
    ensures
        r == ascii_cell(b),
{
    if b == 32 || (33 <= b && b <= 126) {
        b as char
    } else {
        '.'
    }
}

fn hex_line_exec(bytes: &Vec<u8>, start: usize, end: usize) -> (r: String)
    requires
        start < end <= bytes@.len(),
        end - start <= 16,
    ensures
        r@ == hex_line(bytes@.subrange(start as int, end as int)),
{
    let ghost c = bytes@.subrange(start as int, end as int);
    let mut out = String::new();
    let mut i: usize = start;
    proof {
        assert(c.take(0) =~= Seq::<u8>::empty());
    }
    while i < end
        invariant
            start < end <= bytes@.len(),
            start <= i <= end,
            c == bytes@.subrange(start as int, end as int),
            out@ == hex_cells(c.take(i - start)),
        decreases end - i,
    {
        let ghost done = c.take(i - start);
        let ghost out0 = out@;
        if i > start {
            push_char(&mut out, ' ');
        }
        let b = bytes[i];
        push_char(&mut out, hex_digit_exec(b / 16));
        push_char(&mut out, hex_digit_exec(b % 16));
        proof {
            assert(c.take(i - start + 1).drop_last() =~= done);
            assert(c.take(i - start + 1).last() == c[i - start]);
            assert(c[i - start] == bytes@[i as int]);
            if i == start {
                assert(out@ =~= hex_pair(c[0]));
                assert(c.take(1) =~= seq![c[0]]);
                assert(hex_cells(c.take(1)) == hex_pair(c[0]));
            } else {
                assert(out@ =~= hex_cells(done) + seq![' '] + hex_pair(c[i - start]));
                assert(hex_cells(c.take(i - start + 1)) == hex_cells(done) + seq![' ']
                    + hex_pair(c[i - start]));
            }
        }
        i += 1;
    }
    proof {
        assert(c.take(end - start) =~= c);
        lemma_hex_cells_len(c);
    }
    let cells_len: usize = 3 * (end - start) - 1;
    let mut pad: usize = if cells_len < 48 {
        48 - cells_len
    } else {
        0
    };
    let ghost target_pad = pad as int;
    let mut done_pad: usize = 0;
    while done_pad < pad
        invariant
            done_pad <= pad,
            pad as int == target_pad,
            out@ == hex_cells(c) + space_run(done_pad as int),
            c == bytes@.subrange(start as int, end as int),
        decreases pad - done_pad,
    {
        let ghost out0 = out@;
        push_char(&mut out, ' ');
        proof {
            assert(out@ =~= hex_cells(c) + space_run(done_pad + 1));
        }
        done_pad += 1;
    }
    proof {
        assert(target_pad == 48 - hex_cells(c).len() || (hex_cells(c).len() >= 48 && target_pad
            == 0));
        if hex_cells(c).len() >= 48 {
            assert(space_run(48 - hex_cells(c).len()) =~= Seq::<char>::empty());
            assert(space_run(0) =~= Seq::<char>::empty());
        }
        assert(out@ == hex_cells(c) + space_run(48 - hex_cells(c).len()));
    }
    push_char(&mut out, ' ');
    let ghost mid = out@;
    proof {
        assert(mid =~= hex_cells(c) + space_run(48 - hex_cells(c).len()) + seq![' ']);
    }
    let mut j: usize = start;
    proof {
        assert(c.take(0).map_values(|b: u8| ascii_cell(b)) =~= Seq::<char>::empty());
        assert(out@ =~= mid + c.take(0).map_values(|b: u8| ascii_cell(b)));
    }
    while j < end
        invariant
            start < end <= bytes@.len(),
            start <= j <= end,
            c == bytes@.subrange(start as int, end as int),
            out@ == mid + c.take(j - start).map_values(|b: u8| ascii_cell(b)),
        decreases end - j,
    {
        let ghost out0 = out@;
        push_char(&mut out, ascii_cell_exec(bytes[j]));
        proof {
            assert(c[j - start] == bytes@[j as int]);
            assert(c.take(j - start + 1).map_values(|b: u8| ascii_cell(b)) =~= c.take(
                j - start,
            ).map_values(|b: u8| ascii_cell(b)).push(ascii_cell(c[j - start])));
            assert(out@ =~= mid + c.take(j - start + 1).map_values(|b: u8| ascii_cell(b)));
        }
        j += 1;
    }
    proof {
        assert(c.take(end - start) =~= c);
        assert(out@ =~= hex_line(c));
    }
    out
}

impl App {
    /// Render raw bytes as classic hex-dump lines: sixteen bytes per line,
    /// at most `max_lines` lines.
    pub fn format_hex_preview(bytes: &Vec<u8>, max_lines: usize) -> (r: Vec<String>)
        ensures
            r@.len() == (if (bytes@.len() + 15) / 16 <= max_lines {
                ((bytes@.len() + 15) / 16) as int
            } else {
                max_lines as int
            }),
            forall|k: int|
                0 <= k < r@.len() ==> (#[trigger] r@[k])@ == hex_line(
                    bytes@.subrange(
                        16 * k,
                        if 16 * k + 16 <= bytes@.len() {
                            16 * k + 16
                        } else {
                            bytes@.len() as int
                        },
                    ),
                ),
    {
        let n = bytes.len();
        let mut out: Vec<String> = Vec::new();
        let mut start: usize = 0;
        while start < n && out.len() < max_lines
            invariant
                n == bytes@.len(),
                start <= n,
                out@.len() * 16 == start || (start == n && out@.len() == (n + 15) / 16),
                out@.len() <= max_lines,
                forall|k: int|
                    0 <= k < out@.len() ==> (#[trigger] out@[k])@ == hex_line(
                        bytes@.subrange(
                            16 * k,
                            if 16 * k + 16 <= bytes@.len() {
                                16 * k + 16
                            } else {
                                bytes@.len() as int
                            },
                        ),
                    ),
            decreases n - start,
        {
            let end: usize = if n - start >= 16 {
                start + 16
            } else {
                n
            };
            let line = hex_line_exec(bytes, start, end);
            out.push(line);
            start = end;
        }
        out
    }
}

} // verus!
