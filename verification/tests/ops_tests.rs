use filetree::app::App;
use filetree::file_ops::{unique_name, rename_decision, Clipboard, FsAction};
use filetree::git_status::{parse_porcelain_line, parse_status, GitRepo, GitStatus};
use filetree::paths::{join_path, name_of, numbered_name, parent_of};

#[test]
fn test_clipboard_operations() {
    let mut clipboard = Clipboard::default();
    assert!(clipboard.is_empty());

    clipboard.copy(vec!["/test/path".to_string()]);
    assert!(!clipboard.is_empty());

    clipboard.clear();
    assert!(clipboard.is_empty());

    clipboard.cut(vec!["/test/path".to_string()]);
    assert!(!clipboard.is_empty());
}

#[test]
fn copy_collision_picks_numbered_names() {
    // Copying a.txt into a directory already holding a.txt produces
    // a_1.txt; doing it again produces a_2.txt; a.txt is never overwritten.
    let taken = vec!["a.txt".to_string()];
    assert_eq!(unique_name("a.txt", &taken).unwrap(), "a_1.txt");

    let taken = vec!["a.txt".to_string(), "a_1.txt".to_string()];
    assert_eq!(unique_name("a.txt", &taken).unwrap(), "a_2.txt");

    // A free name is used as it is.
    let taken = vec!["other.txt".to_string()];
    assert_eq!(unique_name("a.txt", &taken).unwrap(), "a.txt");
}

#[test]
fn numbered_names_respect_extensions() {
    assert_eq!(numbered_name("a.txt", 3), "a_3.txt");
    assert_eq!(numbered_name("archive.tar.gz", 1), "archive.tar_1.gz");
    assert_eq!(numbered_name("Makefile", 2), "Makefile_2");
    assert_eq!(numbered_name(".env", 1), ".env_1");
}

#[test]
fn rename_decision_no_op_and_action() {
    assert!(rename_decision("/r/same.txt", "same.txt").is_none());
    assert_eq!(
        rename_decision("/r/old.txt", "new.txt"),
        Some(FsAction::RenamePath {
            path: "/r/old.txt".to_string(),
            new_name: "new.txt".to_string(),
        })
    );
}

#[test]
fn path_helpers() {
    assert_eq!(name_of("/a/b/c.txt"), "c.txt");
    assert_eq!(name_of("plain"), "plain");
    assert_eq!(parent_of("/a/b"), Some("/a".to_string()));
    assert_eq!(parent_of("/a"), Some("/".to_string()));
    assert_eq!(parent_of("/"), None);
    assert_eq!(join_path("/a", "b"), "/a/b");
    assert_eq!(join_path("/", "b"), "/b");
}

#[test]
fn normalize_strips_quotes_and_escapes() {
    assert_eq!(App::normalize_dropped_path("  '/tmp/a b'  "), "/tmp/a b");
    assert_eq!(App::normalize_dropped_path("\"/tmp/x\""), "/tmp/x");
    assert_eq!(App::normalize_dropped_path("/tmp/a\\ b"), "/tmp/a b");
    assert_eq!(App::normalize_dropped_path("/plain"), "/plain");
}

#[test]
fn parse_dropped_paths_filters_to_existing_absolute_paths() {
    let existing = vec!["/tmp/one".to_string(), "/tmp/two words".to_string()];
    let paths = App::parse_dropped_paths("/tmp/one '/tmp/two words' /missing rel", &existing);
    assert_eq!(
        paths,
        vec!["/tmp/one".to_string(), "/tmp/two words".to_string()]
    );

    let paths = App::parse_dropped_paths("/tmp/one\n/missing\n'/tmp/two words'\n", &existing);
    assert_eq!(
        paths,
        vec!["/tmp/one".to_string(), "/tmp/two words".to_string()]
    );

    let paths = App::parse_dropped_paths("nothing here", &existing);
    assert!(paths.is_empty());
}

#[test]
fn porcelain_statuses_parse_exactly() {
    assert_eq!(parse_status('?', '?'), GitStatus::Untracked);
    assert_eq!(parse_status('!', '!'), GitStatus::Ignored);
    assert_eq!(parse_status('U', ' '), GitStatus::Conflict);
    assert_eq!(parse_status('A', 'A'), GitStatus::Conflict);
    assert_eq!(parse_status('R', ' '), GitStatus::Renamed);
    assert_eq!(parse_status('A', ' '), GitStatus::Added);
    assert_eq!(parse_status('D', ' '), GitStatus::Deleted);
    assert_eq!(parse_status('M', ' '), GitStatus::Modified);
    assert_eq!(parse_status(' ', 'M'), GitStatus::Modified);
    assert_eq!(parse_status(' ', ' '), GitStatus::Clean);

    let (path, status) = parse_porcelain_line("R  old.txt -> new.txt").unwrap();
    assert_eq!(path, "new.txt");
    assert_eq!(status, GitStatus::Renamed);

    assert!(parse_porcelain_line("x").is_none());
}

#[test]
fn directory_statuses_aggregate_from_files() {
    let status_output = " M src/deep/file.rs\n?? notes.txt\n";
    let repo = GitRepo::new(
        Some("/repo".to_string()),
        status_output,
        "",
        Some("main".to_string()),
    );

    assert_eq!(repo.get_status("/repo/src/deep/file.rs", false), GitStatus::Modified);
    // Every ancestor of a modified file shows as modified.
    assert_eq!(repo.get_status("/repo/src/deep", true), GitStatus::Modified);
    assert_eq!(repo.get_status("/repo/src", true), GitStatus::Modified);
    // An untracked file promotes its ancestors only to untracked.
    assert_eq!(repo.get_status("/repo/notes.txt", false), GitStatus::Untracked);
    assert_eq!(repo.get_status("/repo/untouched.txt", false), GitStatus::Clean);
    assert!(repo.is_inside_repo());
}

#[test]
fn ignored_listing_marks_ignored_entries() {
    let repo = GitRepo::new(
        Some("/repo".to_string()),
        "",
        "!! target\n",
        None,
    );
    assert_eq!(repo.get_status("/repo/target", false), GitStatus::Ignored);
}
