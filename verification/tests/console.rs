use mikrogit::git::console::{command_line, log_git, quiet};
use mikrogit::git::diff::{diff_command, numstat_command, show_command};
use mikrogit::git::ops::{
    branch_list_command, checkout_command, clean_command, commit_command, commit_files_command,
    create_branch_command, current_branch_command, delete_branch_command, discard_command,
    fetch_command, log_command, pull_command, push_command, stage_all_command, stage_command,
    stash_command, stash_create_command, stash_list_command, unstage_all_command, unstage_command,
};
use mikrogit::git::status::status_command;
use mikrogit::git::GitOutput;

#[test]
fn refresh_commands_are_quiet() {
    assert!(quiet(&["status", "--porcelain=v2"]));
    assert!(quiet(&["diff", "--cached", "--", "a.txt"]));
    assert!(quiet(&["branch", "--show-current"]));
    assert!(quiet(&["stash", "list", "--format=x"]));
    assert!(quiet(&["log", "--max-count=200"]));
}

#[test]
fn mutating_commands_are_logged() {
    assert!(!quiet(&["add", "src/"]));
    assert!(!quiet(&["reset", "HEAD", "--", "a.txt"]));
    assert!(!quiet(&["commit", "-m", "x"]));
    assert!(!quiet(&["push"]));
    assert!(!quiet(&["branch", "-D", "feature"]));
    assert!(!quiet(&["stash", "pop", "0"]));
}

#[test]
fn other_refresh_commands_and_edge_cases() {
    for c in ["show", "ls-files", "for-each-ref", "rev-list", "cat-file", "diff-tree", "check-ignore"] {
        assert!(quiet(&[c]));
    }
    assert!(!quiet(&[]));
    assert!(!quiet(&["stash"]));
    assert!(quiet(&["branch", "-v", "--show-current"]));
    assert!(!quiet(&["Status"]));
}

#[test]
fn log_entries_record_mutating_runs() {
    let out = GitOutput { stdout: "out".to_string(), stderr: "err".to_string() };
    assert!(log_git(&["status"], &out, Some(0), false, 5).is_none());
    let forced = log_git(&["status"], &out, Some(0), true, 5).unwrap();
    assert_eq!(forced.cmd, "git status");
    let e = log_git(&["commit", "-m", "x y"], &out, Some(1), false, 42).unwrap();
    assert_eq!(e.cmd, "git commit -m x y");
    assert_eq!(e.stdout, "out");
    assert_eq!(e.stderr, "err");
    assert_eq!(e.code, Some(1));
    assert_eq!(e.ts, 42);
    assert_eq!(command_line(&[]), "git ");
}

fn quiet_vec(args: &[String]) -> bool {
    let refs: Vec<&str> = args.iter().map(String::as_str).collect();
    quiet(&refs)
}

#[test]
fn refresh_queries_the_client_runs_are_quiet() {
    assert!(quiet_vec(&status_command()));
    assert!(quiet_vec(&branch_list_command()));
    assert!(quiet_vec(&current_branch_command()));
    assert!(quiet_vec(&stash_list_command()));
    assert!(quiet_vec(&diff_command("a.txt", true)));
    assert!(quiet_vec(&numstat_command("a.txt", false)));
    assert!(quiet_vec(&show_command("abc", "a.txt")));
    assert!(quiet_vec(&log_command(200, 0)));
    assert!(quiet_vec(&commit_files_command("abc")));
}

#[test]
fn operations_the_client_runs_are_logged() {
    let paths = vec!["src/a.rs".to_string()];
    for args in [
        stage_command("/r", &paths),
        unstage_command("/r", &paths),
        discard_command("/r", &paths),
        clean_command("/r", &paths),
        stage_all_command(),
        unstage_all_command(),
        commit_command("--show-current", true),
        fetch_command(Some("origin")),
        pull_command(),
        push_command(true, "main"),
        checkout_command("list"),
        create_branch_command("feature", false),
        delete_branch_command("feature", true),
        stash_create_command(Some("wip"), true),
        stash_command("apply", 0),
        stash_command("pop", 1),
        stash_command("drop", 2),
    ] {
        assert!(!quiet_vec(&args), "{args:?}");
    }
    // The one branch name that reads as the query.
    assert!(quiet_vec(&create_branch_command("--show-current", false)));
}
