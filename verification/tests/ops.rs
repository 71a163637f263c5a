use mikrogit::git::ops::{
    ahead_behind_command, clean_command, commit_command, commit_files_command,
    create_branch_command, delete_branch_command, discard_command, fetch_command, fetch_result,
    joined_output, log_command, parse_branches, parse_commit_files, parse_left_right, parse_log,
    parse_stash_list, push_command, sort_branches, stage_command, stash_command,
    stash_create_command, trimmed_output, unstage_command,
};
use mikrogit::git::ops::{
    branch_list_command, checkout_command, current_branch_command, head_command, pull_command,
    stage_all_command, stash_list_command, unstage_all_command,
};
use mikrogit::git::status::status_command;
use mikrogit::git::GitOutput;

const REFS: &str = "refs/heads/main\0main\0origin/main\0abc1234\0init\nrefs/heads/feature\0feature\0\0def5678\0wip\nrefs/remotes/origin/main\0origin/main\0\0abc1234\0init\nbroken\0line\n";

#[test]
fn branches_from_for_each_ref() {
    let b = parse_branches(REFS, "feature");
    assert_eq!(b.len(), 3);
    assert_eq!(b[0].name, "main");
    assert!(!b[0].current);
    assert!(!b[0].remote);
    assert_eq!(b[0].upstream.as_deref(), Some("origin/main"));
    assert_eq!(b[0].last_commit, "abc1234");
    assert_eq!(b[0].last_commit_subject, "init");
    assert!(b[1].current);
    assert_eq!(b[1].upstream, None);
    assert!(b[2].remote);
    assert!(!b[2].current);
    let sorted = sort_branches(b);
    let names: Vec<&str> = sorted.iter().map(|x| x.name.as_str()).collect();
    assert_eq!(names, vec!["feature", "main", "origin/main"]);
}

#[test]
fn branch_order_is_current_then_local_then_name() {
    let b = parse_branches(
        "refs/remotes/o/a\0o/a\0\0h\0s\nrefs/heads/zeta\0zeta\0\0h\0s\nrefs/heads/alpha\0alpha\0\0h\0s\nrefs/heads/mid\0mid\0\0h\0s\n",
        "mid",
    );
    let sorted = sort_branches(b);
    let names: Vec<&str> = sorted.iter().map(|x| x.name.as_str()).collect();
    assert_eq!(names, vec!["mid", "alpha", "zeta", "o/a"]);
}

#[test]
fn ahead_behind_counts() {
    let b = parse_branches(REFS, "main");
    let args = ahead_behind_command(&b[0]).unwrap();
    assert_eq!(args, vec!["rev-list", "--count", "--left-right", "origin/main...main"]);
    assert!(ahead_behind_command(&b[1]).is_none());
    assert!(ahead_behind_command(&b[2]).is_none());
    assert_eq!(parse_left_right(Some("3\t5\n")), (5, 3));
    assert_eq!(parse_left_right(Some("3\n")), (0, 0));
    assert_eq!(parse_left_right(Some("x 5")), (0, 0));
    assert_eq!(parse_left_right(None), (0, 0));
}

#[test]
fn stash_entries() {
    let s = parse_stash_list("stash@{0}\0On main: wip\0\nstash@{12}\0WIP on feature: abc msg\0HEAD\nnope\n");
    assert_eq!(s.len(), 2);
    assert_eq!(s[0].index, 0);
    assert_eq!(s[0].message, "On main: wip");
    assert_eq!(s[0].branch, "On main");
    assert_eq!(s[1].index, 12);
    assert_eq!(s[1].branch, "WIP on feature");
    let odd = parse_stash_list("stash@{x}\0no colon here\n");
    assert_eq!(odd[0].index, 0);
    assert_eq!(odd[0].branch, "no colon here");
}

#[test]
fn history_entries() {
    let line = "h1\0s1\0Ann\0a@x\02024-01-01\0subject\0  body  \0p1 p2\0HEAD -> main, origin/main, \n\n";
    let log = parse_log(line);
    assert_eq!(log.len(), 1);
    let c = &log[0];
    assert_eq!(c.hash, "h1");
    assert_eq!(c.short_hash, "s1");
    assert_eq!(c.author, "Ann");
    assert_eq!(c.email, "a@x");
    assert_eq!(c.date, "2024-01-01");
    assert_eq!(c.subject, "subject");
    assert_eq!(c.body, "body");
    assert_eq!(c.parents, vec!["p1", "p2"]);
    assert_eq!(c.refs, vec!["HEAD -> main", "origin/main"]);
    assert!(parse_log("a\0b\0c\n").is_empty());
}

#[test]
fn commit_files() {
    assert_eq!(parse_commit_files("a.txt\n  \nsub/b.txt\n"), vec!["a.txt", "sub/b.txt"]);
    assert!(parse_commit_files("").is_empty());
}

#[test]
fn command_lines_of_operations() {
    let paths = vec!["a.txt".to_string(), "d\\e.txt".to_string()];
    assert_eq!(stage_command("/r", &paths), vec!["add", "--", "a.txt", "d/e.txt"]);
    assert_eq!(unstage_command("/r", &paths), vec!["reset", "HEAD", "--", "a.txt", "d/e.txt"]);
    assert_eq!(discard_command("/r", &paths[..1]), vec!["checkout", "--", "a.txt"]);
    assert_eq!(clean_command("/r", &[]), vec!["clean", "-f", "--"]);
    assert_eq!(commit_command("msg", true), vec!["commit", "-m", "msg", "--amend"]);
    assert_eq!(commit_command("msg", false), vec!["commit", "-m", "msg"]);
    assert_eq!(fetch_command(Some("origin")), vec!["fetch", "--prune", "origin"]);
    assert_eq!(fetch_command(None), vec!["fetch", "--prune"]);
    assert_eq!(push_command(true, "main"), vec!["push", "-u", "origin", "main"]);
    assert_eq!(push_command(false, "main"), vec!["push"]);
    assert_eq!(create_branch_command("f", true), vec!["checkout", "-b", "f"]);
    assert_eq!(create_branch_command("f", false), vec!["branch", "f"]);
    assert_eq!(delete_branch_command("f", true), vec!["branch", "-D", "f"]);
    assert_eq!(delete_branch_command("f", false), vec!["branch", "-d", "f"]);
    assert_eq!(stash_create_command(Some("wip"), true), vec!["stash", "push", "-u", "-m", "wip"]);
    assert_eq!(stash_create_command(Some("  "), false), vec!["stash", "push"]);
    assert_eq!(stash_create_command(None, false), vec!["stash", "push"]);
    assert_eq!(stash_command("pop", 3), vec!["stash", "pop", "stash@{3}"]);
    assert_eq!(
        log_command(200, 40),
        vec!["log", "--max-count=200", "--skip=40", "--date=iso", "--format=%H%x00%h%x00%an%x00%ae%x00%ad%x00%s%x00%b%x00%P%x00%D"]
    );
    assert_eq!(
        commit_files_command("abc"),
        vec!["diff-tree", "--no-commit-id", "--name-only", "-r", "--root", "abc"]
    );
}

#[test]
fn operation_outputs() {
    assert_eq!(trimmed_output(Some("  main\n")), "main");
    assert_eq!(trimmed_output(None), "");
    let out = GitOutput { stdout: "a\n".to_string(), stderr: " From x\n".to_string() };
    assert_eq!(fetch_result(&out), "From x");
    assert_eq!(joined_output("a\n", "b"), "a\nb");
}

#[test]
fn stash_reference_reads_back() {
    for n in [0usize, 7, 12, 4096, usize::MAX] {
        let args = stash_command("apply", n);
        let listed = format!("{}\0On main: x\0\n", args[2]);
        assert_eq!(parse_stash_list(&listed)[0].index, n);
    }
}

#[test]
fn line_splitting_follows_str_lines() {
    for s in ["a\r\nb\rc\r", "x\n\n y \r\n", "one", "\n", "tail\r", "\r\n\r\n"] {
        let expected: Vec<String> =
            s.lines().filter(|l| !l.trim().is_empty()).map(String::from).collect();
        assert_eq!(parse_commit_files(s), expected, "input {s:?}");
    }
}

#[test]
fn log_line_reads_back() {
    let fs = ["0123abc", "0123", "Ann Lee", "ann@x.org", "2024-05-06 07:08:09 +0200", "fix: things", "body", "p1 p2", "HEAD -> main, tag: v1"];
    let log = parse_log(&fs.join("\0"));
    assert_eq!(log.len(), 1);
    let c = &log[0];
    assert_eq!(
        [c.hash.as_str(), c.short_hash.as_str(), c.author.as_str(), c.email.as_str(), c.date.as_str(), c.subject.as_str(), c.body.as_str()],
        [fs[0], fs[1], fs[2], fs[3], fs[4], fs[5], fs[6]]
    );
    assert_eq!(c.parents, vec!["p1", "p2"]);
    assert_eq!(c.refs, vec!["HEAD -> main", "tag: v1"]);
    // Empty fields read back too.
    let blank = parse_log(&["h", "", "", "", "", "", "", "", ""].join("\0"));
    assert_eq!(blank[0].hash, "h");
    assert!(blank[0].parents.is_empty() && blank[0].refs.is_empty());
}

#[test]
fn fixed_command_lines() {
    assert_eq!(
        status_command(),
        ["status", "--porcelain=v2", "--branch", "-uall", "--no-renames", "--ignore-submodules=dirty"]
    );
    assert_eq!(
        branch_list_command(),
        [
            "for-each-ref",
            "--format=%(refname)%00%(refname:short)%00%(upstream:short)%00%(objectname:short)%00%(subject)",
            "refs/heads",
            "refs/remotes"
        ]
    );
    assert_eq!(current_branch_command(), ["branch", "--show-current"]);
    assert_eq!(stash_list_command(), ["stash", "list", "--format=%gd%x00%gs%x00%D"]);
    assert_eq!(stage_all_command(), ["add", "-A"]);
    assert_eq!(unstage_all_command(), ["reset", "HEAD"]);
    assert_eq!(pull_command(), ["pull", "--ff-only"]);
    assert_eq!(head_command(), ["rev-parse", "HEAD"]);
    assert_eq!(checkout_command("dev"), ["checkout", "dev"]);
}

#[test]
fn path_commands_pass_each_relative_path() {
    let paths = vec!["a.txt".to_string(), "sub\\b.txt".to_string(), "/r/c.txt".to_string()];
    assert_eq!(stage_command("/r", &paths), ["add", "--", "a.txt", "sub/b.txt", "c.txt"]);
    assert_eq!(discard_command("/r", &paths[..1]), ["checkout", "--", "a.txt"]);
    assert_eq!(clean_command("/r", &paths[..1]), ["clean", "-f", "--", "a.txt"]);
}
