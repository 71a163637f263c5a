use mikrogit::commands::{check_custom_args, custom_result, log_page_limit, preview_limit, status_bar};
use mikrogit::git::status::parse_porcelain_v2;
use mikrogit::git::{GitError, GitOutput};
use mikrogit::state::AppState;
use mikrogit::watcher::{batch_is_relevant, is_ignored, WatchEvent};

#[test]
fn open_and_close_repositories() {
    let mut s = AppState::new("git".to_string());
    assert!(matches!(s.current_repo(), Err(GitError::NoRepo)));
    s.set_repo("/r".to_string());
    assert_eq!(s.current_repo().unwrap(), "/r");
    s.set_repo("/q".to_string());
    assert_eq!(s.current_repo().unwrap(), "/q");
    s.clear_repo();
    assert!(matches!(s.current_repo(), Err(GitError::NoRepo)));
    assert_eq!(s.git_path, "git");
}

#[test]
fn watcher_relevance() {
    assert!(is_ignored("/r/node_modules/x.js"));
    assert!(is_ignored("/r/target/debug/a"));
    assert!(is_ignored("/r/.git/objects/ab/cd"));
    assert!(is_ignored("/r/.git/lfs/x"));
    assert!(!is_ignored("/r/.git/index"));
    assert!(!is_ignored("node_modules/x"));
    let ev = |p: &str, c: bool| WatchEvent { path: p.to_string(), continuous: c };
    assert!(!batch_is_relevant(&[]));
    assert!(!batch_is_relevant(&[ev("/r/a.txt", true), ev("/r/target/x", false)]));
    assert!(batch_is_relevant(&[ev("/r/target/x", false), ev("/r/a.txt", false)]));
}

#[test]
fn command_helpers() {
    assert!(check_custom_args(&[]).is_err());
    assert!(check_custom_args(&["status".to_string()]).is_ok());
    let ok = custom_result(Ok(GitOutput { stdout: "o".to_string(), stderr: "e".to_string() })).unwrap();
    assert_eq!((ok.stdout.as_str(), ok.stderr.as_str(), ok.code), ("o", "e", Some(0)));
    let failed = custom_result(Err(GitError::Failed { code: Some(2), stderr: "bad".to_string() })).unwrap();
    assert_eq!((failed.stdout.as_str(), failed.stderr.as_str(), failed.code), ("", "bad", Some(2)));
    assert!(matches!(custom_result(Err(GitError::NoRepo)), Err(GitError::NoRepo)));
    assert_eq!(log_page_limit(10), 10);
    assert_eq!(log_page_limit(9000), 500);
    assert_eq!(preview_limit(None), 65536);
    assert_eq!(preview_limit(Some(5)), 5);
    assert_eq!(preview_limit(Some(usize::MAX)), 1048576);
}

#[test]
fn status_bar_counts() {
    let s = parse_porcelain_v2("# branch.head main\n# branch.ab +1 -2\n1 MM .... 1 1 1 a b x\n? y\n? z\n");
    let b = status_bar(s);
    assert_eq!(b.branch.as_deref(), Some("main"));
    assert_eq!((b.ahead, b.behind), (1, 2));
    assert_eq!((b.staged_count, b.unstaged_count, b.untracked_count), (1, 1, 2));
    assert_eq!(b.sync_state, "idle");
}
