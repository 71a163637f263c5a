use mikrogit::git::status::{parse_porcelain_v2, porcelain_well_formed, FileStatus};

#[test]
fn parses_branch_and_changes() {
    let out = "# branch.head main\n# branch.upstream origin/main\n# branch.ab +2 -1\n1 M. .... 100644 100644 100644 abc123 abc123 src/a.ts\n1 .M .... 100644 100644 100644 abc123 abc123 src/b.ts\n? new.txt\n";
    let s = parse_porcelain_v2(out);
    assert_eq!(s.branch.name.as_deref(), Some("main"));
    assert_eq!(s.branch.ahead, 2);
    assert_eq!(s.branch.behind, 1);
    assert_eq!(s.staged.len(), 1);
    assert_eq!(s.staged[0].path, "src/a.ts");
    assert_eq!(s.unstaged.len(), 1);
    assert_eq!(s.unstaged[0].path, "src/b.ts");
    assert_eq!(s.untracked.len(), 1);
}

#[test]
fn parses_rename_with_tab() {
    let out = "2 R. .... 100644 100644 100644 abc def R100 new.ts\told.ts\n";
    let s = parse_porcelain_v2(out);
    assert_eq!(s.staged.len(), 1);
    assert_eq!(s.staged[0].path, "new.ts");
    assert_eq!(s.staged[0].original_path.as_deref(), Some("old.ts"));
}

#[test]
fn parses_unmerged_and_detached() {
    let out =
        "# branch.head (detached)\nu UU .... 100644 100644 100644 100644 a b c conflict.ts\n";
    let s = parse_porcelain_v2(out);
    assert!(s.branch.detached);
    assert_eq!(s.unmerged.len(), 1);
}

#[test]
fn status_letters_and_upstream() {
    let out = "# branch.oid abc\n# branch.head feature\n# branch.upstream (upstream)\n1 AD N... 000000 100644 000000 0 1 added then deleted.txt\n? dir/x y.txt\n! ignored.log\n";
    let s = parse_porcelain_v2(out);
    assert_eq!(s.branch.name.as_deref(), Some("feature"));
    assert_eq!(s.branch.upstream, None);
    assert!(!s.branch.detached);
    assert_eq!(s.staged.len(), 1);
    assert_eq!(s.staged[0].index_status, Some(FileStatus::Added));
    assert_eq!(s.staged[0].worktree_status, None);
    // The path is the rest of the line, spaces included.
    assert_eq!(s.staged[0].path, "added then deleted.txt");
    assert_eq!(s.unstaged.len(), 1);
    assert_eq!(s.unstaged[0].worktree_status, Some(FileStatus::Deleted));
    assert_eq!(s.untracked[0].path, "dir/x y.txt");
    assert_eq!(s.untracked[0].worktree_status, Some(FileStatus::Untracked));
}

#[test]
fn unreadable_ahead_counts_read_as_zero() {
    let s = parse_porcelain_v2("# branch.ab +x -99999999999\n");
    assert_eq!(s.branch.ahead, 0);
    assert_eq!(s.branch.behind, 0);
    let s = parse_porcelain_v2("# branch.ab +007 -+3\n");
    assert_eq!(s.branch.ahead, 7);
    assert_eq!(s.branch.behind, 3);
}

#[test]
fn crlf_lines_and_empty_output() {
    let s = parse_porcelain_v2("# branch.head main\r\n? a.txt\r\n");
    assert_eq!(s.branch.name.as_deref(), Some("main"));
    assert_eq!(s.untracked[0].path, "a.txt");
    let e = parse_porcelain_v2("");
    assert!(e.staged.is_empty() && e.unstaged.is_empty() && e.untracked.is_empty());
    assert_eq!(e.branch.name, None);
}

#[test]
fn well_formedness_check() {
    assert!(porcelain_well_formed("1 M. a b c d e f p\n? x\n"));
    assert!(!porcelain_well_formed("1\n"));
    assert!(!porcelain_well_formed("?é\n"));
    assert!(porcelain_well_formed("# branch.head é\n"));
}

#[test]
fn ordinary_paths_keep_their_spaces() {
    let s = parse_porcelain_v2("1 .M N... 100644 100644 100644 h1 h2 my file.txt\n");
    assert_eq!(s.unstaged.len(), 1);
    assert_eq!(s.unstaged[0].path, "my file.txt");
    assert!(s.staged.is_empty());
}
