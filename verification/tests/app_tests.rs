use filetree::app::{App, ConfirmAction, InputMode};
use filetree::file_ops::{ClipboardContent, FsAction, PendingOp};
use filetree::fs::{EntryInfo, FsSnapshot};
use filetree::git_status::GitRepo;
use filetree::OpError;

fn entry(name: &str, is_dir: bool) -> EntryInfo {
    EntryInfo::new(name.to_string(), is_dir)
}

fn basic_snapshot() -> FsSnapshot {
    let mut fs = FsSnapshot::new();
    fs.add_dir(
        "/r".to_string(),
        vec![entry("b.txt", false), entry("a.txt", false), entry("sub", true)],
    );
    fs.add_dir("/r/sub".to_string(), vec![]);
    fs
}

fn new_app(fs: &FsSnapshot) -> App {
    let repo = GitRepo::new(None, "", "", None);
    App::new("/r".to_string(), None, fs, Vec::new(), repo).unwrap()
}

fn selected_path(app: &App) -> String {
    app.tree.get_node(app.selected).unwrap().path.clone()
}

fn select(app: &mut App, path: &str) {
    app.select_path(path);
    assert_eq!(selected_path(app), path);
}

#[test]
fn selection_follows_path_across_refresh() {
    // After a refresh, a still-existing selected path stays selected even
    // though its flat index moved.
    let fs = basic_snapshot();
    let mut app = new_app(&fs);
    select(&mut app, "/r/b.txt");
    let index_before = app.selected;

    // A new file sorts before b.txt, shifting its index.
    let mut fs2 = FsSnapshot::new();
    fs2.add_dir(
        "/r".to_string(),
        vec![
            entry("b.txt", false),
            entry("a.txt", false),
            entry("aa.txt", false),
            entry("sub", true),
        ],
    );
    fs2.add_dir("/r/sub".to_string(), vec![]);
    app.refresh(&fs2);

    assert_eq!(selected_path(&app), "/r/b.txt");
    assert_ne!(app.selected, index_before);
    assert_eq!(app.message.as_deref(), Some("Refreshed"));
}

#[test]
fn marks_survive_expand_collapse_and_clear_on_delete() {
    // Marking A and B, then expanding and collapsing an unrelated node,
    // leaves both marked; a completed delete clears the marks.
    let fs = basic_snapshot();
    let mut app = new_app(&fs);
    select(&mut app, "/r/a.txt");
    app.toggle_mark();
    select(&mut app, "/r/b.txt");
    app.toggle_mark();
    assert_eq!(app.marked, vec!["/r/a.txt".to_string(), "/r/b.txt".to_string()]);

    select(&mut app, "/r/sub");
    app.toggle_expand(&fs);
    app.toggle_expand(&fs);
    assert_eq!(app.marked, vec!["/r/a.txt".to_string(), "/r/b.txt".to_string()]);

    app.confirm_delete();
    let op = app.confirm_input(&Vec::new());
    match op {
        PendingOp::Delete(actions) => {
            assert_eq!(actions.len(), 2);
        }
        other => panic!("expected delete actions, got {:?}", other),
    }
    assert!(app.marked.is_empty());

    let mut fs2 = FsSnapshot::new();
    fs2.add_dir("/r".to_string(), vec![entry("sub", true)]);
    fs2.add_dir("/r/sub".to_string(), vec![]);
    app.apply_delete_result(2, &fs2);
    assert!(app.marked.is_empty());
    assert_eq!(app.message.as_deref(), Some("Deleted 2 item(s)"));
    assert!(app.tree.find_index_by_path("/r/a.txt").is_none());
}

#[test]
fn clipboard_holds_exactly_the_last_payload() {
    // cut(X) followed by yank(Y) leaves exactly a copy payload of Y.
    let fs = basic_snapshot();
    let mut app = new_app(&fs);
    select(&mut app, "/r/a.txt");
    app.cut();
    select(&mut app, "/r/b.txt");
    app.yank();

    match &app.clipboard.content {
        Some(ClipboardContent::Copy(paths)) => {
            assert_eq!(paths, &vec!["/r/b.txt".to_string()]);
        }
        other => panic!("expected a copy payload, got {:?}", other),
    }
}

#[test]
fn rename_to_same_name_is_a_no_op() {
    // Renaming a path to its own current name succeeds without touching
    // the filesystem: no action is produced.
    let fs = basic_snapshot();
    let mut app = new_app(&fs);
    select(&mut app, "/r/a.txt");
    let len_before = app.tree.len();
    app.start_rename();
    assert_eq!(app.input_buffer, "a.txt");
    let op = app.confirm_input(&Vec::new());
    assert_eq!(op, PendingOp::DoNothing);
    assert_eq!(app.tree.len(), len_before);
    assert_eq!(app.input_mode, InputMode::Normal);
    assert_eq!(app.message.as_deref(), Some("Renamed to /r/a.txt"));
}

#[test]
fn rename_to_other_name_requests_the_rename() {
    let fs = basic_snapshot();
    let mut app = new_app(&fs);
    select(&mut app, "/r/a.txt");
    app.start_rename();
    app.input_buffer = "c.txt".to_string();
    let op = app.confirm_input(&Vec::new());
    assert_eq!(
        op,
        PendingOp::Rename(FsAction::RenamePath {
            path: "/r/a.txt".to_string(),
            new_name: "c.txt".to_string(),
        })
    );
}

#[test]
fn delete_confirmation_gates_on_directories_and_decline_changes_nothing() {
    // confirmDelete on a selection containing a directory records
    // has_directories; declining leaves everything unchanged.
    let fs = basic_snapshot();
    let mut app = new_app(&fs);
    select(&mut app, "/r/sub");
    let len_before = app.tree.len();
    app.confirm_delete();
    match &app.input_mode {
        InputMode::Confirm(ConfirmAction::Delete(info)) => {
            assert!(info.has_directories);
            assert_eq!(info.paths, vec!["/r/sub".to_string()]);
        }
        other => panic!("expected a pending confirmation, got {:?}", other),
    }

    app.cancel_input();
    assert_eq!(app.input_mode, InputMode::Normal);
    assert_eq!(app.tree.len(), len_before);
    assert_eq!(selected_path(&app), "/r/sub");
}

#[test]
fn delete_confirmation_without_directories() {
    let fs = basic_snapshot();
    let mut app = new_app(&fs);
    select(&mut app, "/r/a.txt");
    app.confirm_delete();
    match &app.input_mode {
        InputMode::Confirm(ConfirmAction::Delete(info)) => {
            assert!(!info.has_directories);
        }
        other => panic!("expected a pending confirmation, got {:?}", other),
    }
}

#[test]
fn scenario_cut_and_paste_into_subdirectory() {
    // Mark a.txt, cut, navigate into sub, paste: sub/a.txt exists, the
    // original is gone, marks and clipboard are empty.
    let fs = basic_snapshot();
    let mut app = new_app(&fs);
    select(&mut app, "/r/a.txt");
    app.toggle_mark();
    app.cut();

    select(&mut app, "/r/sub");
    app.expand_current(&fs);

    let actions = app.paste();
    assert_eq!(
        actions,
        vec![FsAction::MoveInto {
            src: "/r/a.txt".to_string(),
            dest_dir: "/r/sub".to_string(),
        }]
    );
    assert!(app.marked.is_empty());
    assert!(app.clipboard.content.is_none());

    // The move happened on disk; rescan from the new state.
    let mut fs2 = FsSnapshot::new();
    fs2.add_dir(
        "/r".to_string(),
        vec![entry("b.txt", false), entry("sub", true)],
    );
    fs2.add_dir("/r/sub".to_string(), vec![entry("a.txt", false)]);
    app.apply_paste_result(1, &fs2);

    assert!(app.tree.find_index_by_path("/r/sub/a.txt").is_some());
    assert!(app.tree.find_index_by_path("/r/a.txt").is_none());
    assert_eq!(app.message.as_deref(), Some("Pasted 1 item(s)"));
}

#[test]
fn copy_paste_keeps_clipboard_armed() {
    let fs = basic_snapshot();
    let mut app = new_app(&fs);
    select(&mut app, "/r/a.txt");
    app.yank();
    select(&mut app, "/r/sub");
    let actions = app.paste();
    assert_eq!(
        actions,
        vec![FsAction::CopyInto {
            src: "/r/a.txt".to_string(),
            dest_dir: "/r/sub".to_string(),
        }]
    );
    // A copy payload supports repeated pasting.
    match &app.clipboard.content {
        Some(ClipboardContent::Copy(paths)) => {
            assert_eq!(paths, &vec!["/r/a.txt".to_string()]);
        }
        other => panic!("expected the copy payload to stay armed, got {:?}", other),
    }
}

#[test]
fn scenario_create_colliding_file_fails_and_changes_nothing() {
    // Creating a.txt where a.txt exists fails with a name collision and
    // the directory contents are unchanged.
    let fs = basic_snapshot();
    let mut app = new_app(&fs);
    select(&mut app, "/r/a.txt");
    let len_before = app.tree.len();
    app.start_new_file();
    app.input_buffer = "a.txt".to_string();
    let op = app.confirm_input(&Vec::new());
    assert_eq!(
        op,
        PendingOp::Create(FsAction::CreateFile {
            dir: "/r".to_string(),
            name: "a.txt".to_string(),
        })
    );

    // The atomic create reported that the name exists.
    app.apply_create_result(Err(OpError::NameCollision), &fs);
    assert_eq!(app.message.as_deref(), Some("Error: name already exists"));
    assert_eq!(app.tree.len(), len_before);
}

#[test]
fn create_file_in_directory_destination() {
    let fs = basic_snapshot();
    let mut app = new_app(&fs);
    select(&mut app, "/r/sub");
    app.start_new_dir();
    app.input_buffer = "child".to_string();
    let op = app.confirm_input(&Vec::new());
    assert_eq!(
        op,
        PendingOp::Create(FsAction::CreateDir {
            dir: "/r/sub".to_string(),
            name: "child".to_string(),
        })
    );
}

#[test]
fn paste_destination_is_dir_or_parent() {
    let fs = basic_snapshot();
    let mut app = new_app(&fs);
    select(&mut app, "/r/sub");
    assert_eq!(app.get_paste_destination().unwrap(), "/r/sub");
    select(&mut app, "/r/a.txt");
    assert_eq!(app.get_paste_destination().unwrap(), "/r");
}

#[test]
fn search_finds_case_insensitive_match() {
    let fs = basic_snapshot();
    let mut app = new_app(&fs);
    app.input_buffer = "B.TXT".to_string();
    app.search_next();
    assert_eq!(selected_path(&app), "/r/b.txt");

    app.input_buffer = "zzz".to_string();
    app.search_next();
    assert_eq!(app.message.as_deref(), Some("No match found"));
}

#[test]
fn navigation_clamps_at_both_ends() {
    let fs = basic_snapshot();
    let mut app = new_app(&fs);
    app.move_up();
    assert_eq!(app.selected, 0);
    app.move_to_bottom();
    let last = app.selected;
    app.move_down();
    assert_eq!(app.selected, last);
    app.move_to_top();
    assert_eq!(app.selected, 0);
    app.scroll_down(100);
    assert_eq!(app.selected, last);
    app.scroll_up(100);
    assert_eq!(app.selected, 0);
}

#[test]
fn toggle_mark_advances_selection() {
    let fs = basic_snapshot();
    let mut app = new_app(&fs);
    select(&mut app, "/r/sub");
    let before = app.selected;
    app.toggle_mark();
    assert_eq!(app.selected, before + 1);
    assert_eq!(app.marked, vec!["/r/sub".to_string()]);

    // Toggling the same path again unmarks it.
    select(&mut app, "/r/sub");
    app.toggle_mark();
    assert!(app.marked.is_empty());
}

#[test]
fn adjust_scroll_keeps_selection_visible() {
    let fs = basic_snapshot();
    let mut app = new_app(&fs);
    app.move_to_bottom();
    app.adjust_scroll(2);
    assert!(app.scroll_offset <= app.selected);
    assert!(app.selected < app.scroll_offset + 2);
    app.move_to_top();
    app.adjust_scroll(2);
    assert_eq!(app.scroll_offset, 0);
}

#[test]
fn double_click_expands_directory() {
    let fs = basic_snapshot();
    let mut app = new_app(&fs);
    let sub_index = app.tree.find_index_by_path("/r/sub").unwrap();
    let len_before = app.tree.len();
    let row = (sub_index - app.scroll_offset) as u16;
    app.handle_click(row, 1000, &fs);
    assert_eq!(app.selected, sub_index);
    app.handle_click(row, 1200, &fs);
    // sub is empty, so the flat list length does not change, but the node
    // is now expanded.
    assert_eq!(app.tree.len(), len_before);
    assert!(app.tree.get_node(sub_index).unwrap().expanded);
}

#[test]
fn buffered_characters_become_a_drop_after_quiet_time() {
    let fs = basic_snapshot();
    let mut app = new_app(&fs);
    app.buffer_char('/', 0);
    app.buffer_char('x', 10);
    // Still too fresh to interpret.
    assert!(app.check_drop_buffer(50).is_none());
    let text = app.check_drop_buffer(200).unwrap();
    assert_eq!(text, "/x");
    assert!(app.drop_buffer.is_empty());

    // A long pause starts a new buffer.
    app.buffer_char('a', 1000);
    app.buffer_char('b', 2000);
    assert_eq!(app.drop_buffer, "b");
}

#[test]
fn resolved_drop_copies_existing_path_or_starts_search() {
    let fs = basic_snapshot();
    let mut app = new_app(&fs);
    select(&mut app, "/r/sub");

    let existing = vec!["/tmp/x.bin".to_string()];
    let actions = app.resolve_drop("/tmp/x.bin", &existing);
    assert_eq!(
        actions,
        vec![FsAction::CopyInto {
            src: "/tmp/x.bin".to_string(),
            dest_dir: "/r/sub".to_string(),
        }]
    );

    // An unknown path beginning with the search sigil becomes a query.
    let actions = app.resolve_drop("/query", &Vec::new());
    assert!(actions.is_empty());
    assert_eq!(app.input_mode, InputMode::Search);
    assert_eq!(app.input_buffer, "query");
}

#[test]
fn committed_search_buffer_with_paths_becomes_a_drop() {
    let fs = basic_snapshot();
    let mut app = new_app(&fs);
    select(&mut app, "/r/sub");
    app.input_mode = InputMode::Search;
    app.input_buffer = "/one /two".to_string();
    let existing = vec!["/one".to_string(), "/two".to_string()];
    let op = app.confirm_input(&existing);
    match op {
        PendingOp::Drop(actions) => {
            assert_eq!(actions.len(), 2);
            assert_eq!(
                actions[0],
                FsAction::CopyInto {
                    src: "/one".to_string(),
                    dest_dir: "/r/sub".to_string(),
                }
            );
        }
        other => panic!("expected drop actions, got {:?}", other),
    }
}

#[test]
fn external_command_history_dedups_and_appends() {
    let fs = basic_snapshot();
    let mut app = new_app(&fs);
    app.start_external_command();
    app.input_buffer = "less <filepath>".to_string();
    let op = app.confirm_input(&Vec::new());
    assert_eq!(op, PendingOp::RunCommand("less <filepath>".to_string()));
    app.start_external_command();
    app.input_buffer = "vi <filepath>".to_string();
    app.confirm_input(&Vec::new());
    app.start_external_command();
    app.input_buffer = "less <filepath>".to_string();
    app.confirm_input(&Vec::new());
    assert_eq!(
        app.command_history,
        vec!["vi <filepath>".to_string(), "less <filepath>".to_string()]
    );

    app.start_external_command();
    app.history_prev();
    assert_eq!(app.input_buffer, "less <filepath>");
    app.history_prev();
    assert_eq!(app.input_buffer, "vi <filepath>");
    app.history_next();
    assert_eq!(app.input_buffer, "less <filepath>");
    app.history_next();
    assert_eq!(app.input_buffer, "");
}

#[test]
fn hex_preview_lines_are_fixed_width() {
    let lines = App::format_hex_preview(&vec![0x41, 0x42], 10);
    assert_eq!(lines.len(), 1);
    let expected = format!("{:<48} {}", "41 42", "AB");
    assert_eq!(lines[0], expected);

    let many: Vec<u8> = (0u8..40u8).collect();
    let lines = App::format_hex_preview(&many, 2);
    assert_eq!(lines.len(), 2);

    let lines = App::format_hex_preview(&vec![0u8, 255u8], 10);
    let expected = format!("{:<48} {}", "00 ff", "..");
    assert_eq!(lines[0], expected);
}

#[test]
fn preview_state_round_trip() {
    let fs = basic_snapshot();
    let mut app = new_app(&fs);
    app.open_preview_text("/r/a.txt".to_string(), vec!["one".to_string(), "two".to_string()]);
    assert_eq!(app.input_mode, InputMode::Preview);
    app.preview_scroll_down(1);
    assert_eq!(app.preview_scroll, 1);
    app.preview_scroll_up();
    assert_eq!(app.preview_scroll, 0);
    app.preview_page_down(1);
    assert_eq!(app.preview_scroll, 1);
    app.preview_page_up(1);
    assert_eq!(app.preview_scroll, 0);
    app.close_preview();
    assert_eq!(app.input_mode, InputMode::Normal);
    assert!(app.preview_content.is_empty());
}
