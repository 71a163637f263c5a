use mikrogit::git::files::{
    checked_relative, conflicts_resolvable, create_check, delete_check, file_text, list_target,
    listing_check, not_a_file, read_target, rename_check, resolve, sort_entries, tree_entry,
};
use mikrogit::git::GitError;

fn message(e: GitError) -> String {
    e.message()
}

#[test]
fn explorer_paths() {
    assert_eq!(resolve("/r", "sub/x.txt").unwrap(), "sub/x.txt");
    assert!(resolve("/r", "../evil").is_err());
    assert!(resolve("/r", "a/../b").is_err());
    assert!(resolve("/r", "").is_err());
    assert_eq!(resolve("/r", "a..b/c").unwrap(), "a..b/c");
    assert_eq!(message(checked_relative(String::new()).unwrap_err()), "git failed (exit None): invalid path");
    assert_eq!(list_target("/r", None).unwrap(), None);
    assert_eq!(list_target("/r", Some("")).unwrap(), None);
    assert_eq!(list_target("/r", Some("sub")).unwrap().as_deref(), Some("sub"));
    assert!(list_target("/r", Some("../outside")).is_err());
    assert_eq!(read_target("/r", "a.txt").unwrap(), "a.txt");
    assert!(read_target("/r", "a..b").is_err());
    assert!(read_target("/r", "../outside.txt").is_err());
    match not_a_file("d") {
        GitError::Failed { code: None, stderr } => assert_eq!(stderr, "not a file: d"),
        _ => panic!("expected a failure"),
    }
}

#[test]
fn listing_entries_and_order() {
    assert!(tree_entry(".git", None, false, true, false, 0).is_none());
    assert!(tree_entry("link", None, true, false, true, 3).is_none());
    assert!(tree_entry("fifo", None, false, false, false, 3).is_none());
    let d = tree_entry("sub", Some("x\\sub".to_string()), false, true, false, 9).unwrap();
    assert_eq!((d.path.as_str(), d.kind.as_str(), d.size), ("x/sub", "dir", 0));
    let f = tree_entry("b.txt", None, false, false, true, 7).unwrap();
    assert_eq!((f.path.as_str(), f.kind.as_str(), f.size), ("b.txt", "file", 7));
    let a = tree_entry("a.txt", None, false, false, true, 1).unwrap();
    let z = tree_entry("z", None, false, true, false, 0).unwrap();
    let sorted = sort_entries(vec![f, d, a, z]);
    let paths: Vec<&str> = sorted.iter().map(|e| e.path.as_str()).collect();
    assert_eq!(paths, vec!["x/sub", "z", "a.txt", "b.txt"]);
    assert_eq!(sorted[0].kind, "dir");
}

#[test]
fn file_previews() {
    assert_eq!(file_text(b"hello\n", 1024).unwrap(), "hello\n");
    assert_eq!(file_text(b"hello\n", 3).unwrap(), "hel\n… [truncated]");
    assert_eq!(message(file_text(b"a\0b", 1024).unwrap_err()), "git failed (exit None): binary file — no text preview");
    // A NUL byte past the limit is not seen.
    assert_eq!(file_text(b"ab\0", 2).unwrap(), "ab\n… [truncated]");
    assert_eq!(file_text(&[0xff, b'a'], 10).unwrap(), "\u{fffd}a");
    assert_eq!(file_text("é".as_bytes(), 10).unwrap(), "é");
}

#[test]
fn unclosed_blocks_need_a_choice() {
    let open = "a\n<<<<<<< HEAD\ncur\n";
    assert!(!conflicts_resolvable(open, &[]));
    assert!(conflicts_resolvable(open, &["current".to_string()]));
    assert!(!conflicts_resolvable(open, &["other".to_string()]));
    assert!(conflicts_resolvable("a\n<<<<<<< x\n=======\n>>>>>>> y\n", &[]));
}

#[test]
fn explorer_existence_checks() {
    assert!(listing_check(true).is_ok());
    assert_eq!(message(listing_check(false).unwrap_err()), "git failed (exit None): not a directory");
    assert!(create_check(false).is_ok());
    assert_eq!(message(create_check(true).unwrap_err()), "git failed (exit None): already exists");
    assert!(rename_check(true, false).is_ok());
    assert_eq!(message(rename_check(false, false).unwrap_err()), "git failed (exit None): source not found");
    assert_eq!(message(rename_check(false, true).unwrap_err()), "git failed (exit None): source not found");
    assert_eq!(
        message(rename_check(true, true).unwrap_err()),
        "git failed (exit None): destination already exists"
    );
    assert!(delete_check(true).is_ok());
    assert_eq!(message(delete_check(false).unwrap_err()), "git failed (exit None): not found");
}

#[test]
fn saved_text_previews_unchanged() {
    let text = "first line\nsecond — ünïcode\n";
    assert_eq!(file_text(text.as_bytes(), text.len()).unwrap(), text);
    assert_eq!(file_text(b"", 0).unwrap(), "");
}

#[test]
fn listing_keeps_every_entry_in_order() {
    let mk = |n: &str, dir: bool| tree_entry(n, None, false, dir, !dir, 1).unwrap();
    let sorted = sort_entries(vec![mk("b", false), mk("b", true), mk("a", false), mk("a", true), mk("a", false)]);
    let got: Vec<(&str, &str)> = sorted.iter().map(|e| (e.kind.as_str(), e.path.as_str())).collect();
    assert_eq!(got, vec![("dir", "a"), ("dir", "b"), ("file", "a"), ("file", "a"), ("file", "b")]);
}
