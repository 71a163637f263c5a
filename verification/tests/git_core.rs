use mikrogit::git::{
    decode_output, finish_run, git_command, relative_path, repo_root, to_repo_relative, GitError,
};

#[test]
fn error_messages() {
    let e = GitError::Failed { code: Some(128), stderr: "fatal: x".to_string() };
    assert_eq!(e.message(), "git failed (exit Some(128)): fatal: x");
    let e = GitError::Failed { code: Some(-1), stderr: String::new() };
    assert_eq!(e.message(), "git failed (exit Some(-1)): ");
    let e = GitError::Failed { code: None, stderr: "boom".to_string() };
    assert_eq!(e.message(), "git failed (exit None): boom");
    assert_eq!(GitError::NoRepo.message(), "no repository open");
    assert_eq!(GitError::Io("disk".to_string()).message(), "io error: disk");
    assert_eq!(GitError::GitNotFound("nope".to_string()).message(), "git binary not found: nope");
    let e = GitError::Failed { code: Some(i32::MIN), stderr: String::new() };
    assert_eq!(e.message(), "git failed (exit Some(-2147483648)): ");
}

#[test]
fn subcommands_get_the_pager_turned_off() {
    assert_eq!(git_command(&["status"]), vec!["-c", "core.pager=cat", "status"]);
    assert_eq!(git_command(&["--version"]), vec!["--version"]);
    assert!(git_command(&[]).is_empty());
    assert_eq!(git_command(&["", "x"]), vec!["-c", "core.pager=cat", "", "x"]);
}

#[test]
fn run_outcomes() {
    let ok = finish_run("o".to_string(), "e".to_string(), true, Some(0)).unwrap();
    assert_eq!(ok.stdout, "o");
    assert_eq!(ok.stderr, "e");
    match finish_run("o".to_string(), "  bad ref\n".to_string(), false, Some(1)) {
        Err(GitError::Failed { code, stderr }) => {
            assert_eq!(code, Some(1));
            assert_eq!(stderr, "bad ref");
        }
        _ => panic!("expected a failure"),
    }
}

#[test]
fn relative_paths_use_forward_slashes() {
    assert_eq!(relative_path("a\\b\\c.txt", None), "a/b/c.txt");
    assert_eq!(relative_path("/repo/x", Some("sub\\y".to_string())), "sub/y");
    assert_eq!(to_repo_relative("/repo", "src/a.rs"), "src/a.rs");
    assert_eq!(to_repo_relative("/repo", "/repo/src/a.rs"), "src/a.rs");
    assert_eq!(to_repo_relative("/repo", "/elsewhere/a.rs"), "/elsewhere/a.rs");
}

#[test]
fn repo_root_is_the_nearest_marked_ancestor() {
    let anc = vec![
        ("/r/a/b".to_string(), false),
        ("/r/a".to_string(), true),
        ("/r".to_string(), true),
    ];
    assert_eq!(repo_root("/r/a/b/f.txt", &anc).unwrap(), "/r/a");
    match repo_root("/tmp/x", &[("/tmp".to_string(), false)]) {
        Err(GitError::Failed { code: None, stderr }) => {
            assert_eq!(stderr, "not a git repository: /tmp/x")
        }
        _ => panic!("expected a failure"),
    }
}

#[test]
fn relative_paths_stay_as_they_are() {
    for p in ["a.txt", "sub/dir/b.txt", "my file.txt", "x\\y.txt", "."] {
        let r = to_repo_relative("/repo", p);
        assert_eq!(r, p.replace('\\', "/"));
        assert_eq!(to_repo_relative("/repo", &r), r);
    }
    assert_eq!(to_repo_relative("/repo", "/repo/sub/a.txt"), "sub/a.txt");
}

#[test]
fn paths_under_the_repository_lose_its_prefix() {
    assert_eq!(to_repo_relative("/repo", "/repo/sub/a.txt"), "sub/a.txt");
    assert_eq!(to_repo_relative("/repo", "/repo/my file.txt"), "my file.txt");
    // Relative results come back unchanged.
    let r = to_repo_relative("/repo", "/repo/sub/a.txt");
    assert_eq!(to_repo_relative("/repo", &r), r);
    // The repository is the prefix, not the other way round.
    assert_eq!(to_repo_relative("/repo/sub", "/repo"), "/repo");
    assert_eq!(to_repo_relative("/repo", "/other/a.txt"), "/other/a.txt");
}

#[test]
fn process_output_decodes_leniently() {
    let o = decode_output(b"ok\n", &[b'e', 0xff]);
    assert_eq!(o.stdout, "ok\n");
    assert_eq!(o.stderr, "e\u{fffd}");
}
