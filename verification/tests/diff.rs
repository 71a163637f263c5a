use mikrogit::git::diff::{
    diff_command, diff_output_fits, hunk_nums, needs_preview, numstat_command, numstat_result,
    parse_commit_diff, parse_diff, parse_numstat, show_command, untracked_diff,
};

fn chars(s: &str) -> Vec<char> {
    s.chars().collect()
}

const DIFF: &str = "diff --git a/a.txt b/a.txt\nindex 1..2 100644\n--- a/a.txt\n+++ b/a.txt\n@@ -1,2 +1,3 @@ fn x\n hello\n-old\n+new\n+more\n\\ No newline at end of file\n@@ -10 +11 @@\n ctx\n";

#[test]
fn parses_hunks_with_line_numbers() {
    assert!(diff_output_fits(DIFF, true));
    let d = parse_diff("a.txt", DIFF, (2, 1));
    assert_eq!(d.path, "a.txt");
    assert_eq!(d.old_path.as_deref(), Some("a.txt"));
    assert!(!d.binary);
    assert_eq!((d.added, d.removed), (2, 1));
    assert_eq!(d.hunks.len(), 2);
    let h = &d.hunks[0];
    assert_eq!(h.header, "@@ -1,2 +1,3 @@ fn x");
    // "fn x" adds no number: four numbers were read.
    assert_eq!((h.old_start, h.old_lines, h.new_start, h.new_lines), (1, 2, 1, 3));
    assert_eq!(h.lines.len(), 4);
    assert_eq!(h.lines[0].kind, "context");
    assert_eq!((h.lines[0].old_no, h.lines[0].new_no), (Some(1), Some(1)));
    assert_eq!(h.lines[1].kind, "del");
    assert_eq!(h.lines[1].content, "old");
    assert_eq!((h.lines[1].old_no, h.lines[1].new_no), (Some(2), None));
    assert_eq!(h.lines[2].kind, "add");
    assert_eq!((h.lines[2].old_no, h.lines[2].new_no), (None, Some(2)));
    assert_eq!(h.lines[3].new_no, Some(3));
    let h2 = &d.hunks[1];
    assert_eq!((h2.old_start, h2.old_lines, h2.new_start, h2.new_lines), (10, 1, 11, 1));
    assert_eq!((h2.lines[0].old_no, h2.lines[0].new_no), (Some(10), Some(11)));
}

#[test]
fn hunk_header_numbers() {
    assert_eq!(hunk_nums(&chars("-1,2 +1,3 @@")), vec![1, 2, 1, 3]);
    assert_eq!(hunk_nums(&chars("-0,0 +1 @@ 7 x")), vec![0, 0, 1, 7]);
    assert_eq!(hunk_nums(&chars("-99999999999 +1 @@")), vec![1]);
}

#[test]
fn odd_headers_read_as_zero() {
    let d = parse_diff("f", "@@ -1,2 +3,4 @@ 5\n+x\n", (0, 0));
    let h = &d.hunks[0];
    assert_eq!((h.old_start, h.old_lines, h.new_start, h.new_lines), (0, 0, 0, 0));
    assert_eq!(h.lines[0].new_no, Some(0));
}

#[test]
fn binary_and_new_files() {
    let d = parse_diff("img.png", "diff --git a/img.png b/img.png\nBinary files /dev/null and b/img.png differ\n", (0, 0));
    assert!(d.binary);
    assert!(d.hunks.is_empty());
    let d = parse_diff("n.txt", "--- /dev/null\n+++ b/n.txt\n@@ -0,0 +1 @@\n+hi\n", (1, 0));
    assert_eq!(d.old_path, None);
    // "-0,0 +1" holds three numbers, which read as no range at all.
    assert_eq!(d.hunks[0].new_start, 0);
    assert_eq!(d.hunks[0].lines[0].new_no, Some(0));
    let d = parse_diff("a/b.txt", "--- a/a/b.txt\n", (0, 0));
    // Every leading "a/" goes.
    assert_eq!(d.old_path.as_deref(), Some("b.txt"));
}

#[test]
fn worktree_and_commit_rules_differ() {
    let out = "@@ -1 +1 @@\n+++x\n+y\n--- z\n";
    let w = parse_diff("f", out, (0, 0));
    assert_eq!(w.hunks[0].lines.len(), 1);
    assert_eq!(w.hunks[0].lines[0].content, "y");
    assert_eq!(w.old_path.as_deref(), Some("z"));
    let c = parse_commit_diff("f", out);
    assert_eq!(c.hunks[0].lines.len(), 2);
    assert_eq!(c.hunks[0].lines[0].content, "++x");
    assert_eq!(c.old_path, None);
    assert_eq!((c.added, c.removed), (0, 0));
    assert!(!parse_commit_diff("f", "x GIT binary patch\n").binary);
    assert!(parse_diff("f", "x GIT binary patch\n", (0, 0)).binary);
    assert!(parse_commit_diff("f", "GIT binary patch\n").binary);
}

#[test]
fn counters_past_u32_max_are_refused() {
    // Counting past the last added line already overflows.
    assert!(!diff_output_fits("@@ -1 +4294967295 @@\n+a\n", true));
    assert!(diff_output_fits("@@ -1 +4294967294 @@\n+a\n", true));
    assert!(diff_output_fits("@@ -1 +4294967295 @@\n+++a\n+++b\n", true));
    assert!(!diff_output_fits("@@ -1 +4294967295 @@\n+++a\n+++b\n", false));
}

#[test]
fn numstat_counts() {
    assert_eq!(parse_numstat("3\t1\ta.txt"), (3, 1));
    assert_eq!(parse_numstat("-\t-\timg.png"), (0, 0));
    assert_eq!(parse_numstat("x 4"), (0, 4));
    assert_eq!(parse_numstat("7"), (0, 0));
    assert_eq!(numstat_result(Some("2\t0\ta\n5\t5\tb\n")), (2, 0));
    assert_eq!(numstat_result(Some("")), (0, 0));
    assert_eq!(numstat_result(None), (0, 0));
}

#[test]
fn untracked_previews() {
    assert!(needs_preview("  \n", false));
    assert!(!needs_preview("  \n", true));
    assert!(!needs_preview("x", false));
    let d = untracked_diff("b.txt", Some("new\nline\n"));
    assert_eq!(d.added, 2);
    assert_eq!(d.removed, 0);
    assert_eq!(d.hunks.len(), 1);
    assert_eq!(d.hunks[0].header, "@@ -0,0 +1 @@");
    assert_eq!(d.hunks[0].new_lines, 2);
    assert_eq!(d.hunks[0].lines[1].content, "line");
    assert_eq!(d.hunks[0].lines[1].new_no, Some(2));
    assert_eq!(d.hunks[0].lines[0].kind, "add");
    let b = untracked_diff("bin", None);
    assert!(b.binary);
    assert!(b.hunks.is_empty());
}

#[test]
fn diff_command_lines() {
    assert_eq!(
        diff_command("a.txt", true),
        vec!["diff", "--no-color", "--no-ext-diff", "--unified=3", "--src-prefix=a/", "--dst-prefix=b/", "--cached", "--", "a.txt"]
    );
    assert_eq!(diff_command("a.txt", false).len(), 8);
    assert_eq!(numstat_command("a", true), vec!["diff", "--cached", "--numstat", "--", "a"]);
    assert_eq!(numstat_command("a", false), vec!["diff", "--numstat", "--", "a"]);
    assert_eq!(
        show_command("abc", "a"),
        vec!["show", "--no-color", "--no-ext-diff", "--unified=3", "--format=", "abc", "--", "a"]
    );
}

#[test]
fn hunk_line_numbers_count_up() {
    let out = "@@ -5,4 +7,4 @@\n a\n-b\n-c\n+C\n d\n+e\n";
    let d = parse_commit_diff("f", out);
    let nums: Vec<(&str, Option<u32>, Option<u32>)> =
        d.hunks[0].lines.iter().map(|l| (l.kind.as_str(), l.old_no, l.new_no)).collect();
    assert_eq!(
        nums,
        vec![
            ("context", Some(5), Some(7)),
            ("del", Some(6), None),
            ("del", Some(7), None),
            ("add", None, Some(8)),
            ("context", Some(8), Some(9)),
            ("add", None, Some(10)),
        ]
    );
}

#[test]
fn commit_and_worktree_reads_agree() {
    let w = parse_diff("a.txt", DIFF, (2, 1));
    let c = parse_commit_diff("a.txt", DIFF);
    assert_eq!(w.binary, c.binary);
    assert_eq!(w.hunks.len(), c.hunks.len());
    for (hw, hc) in w.hunks.iter().zip(c.hunks.iter()) {
        assert_eq!(hw.header, hc.header);
        assert_eq!((hw.old_start, hw.old_lines, hw.new_start, hw.new_lines), (hc.old_start, hc.old_lines, hc.new_start, hc.new_lines));
        let lw: Vec<_> = hw.lines.iter().map(|l| (l.kind.clone(), l.content.clone(), l.old_no, l.new_no)).collect();
        let lc: Vec<_> = hc.lines.iter().map(|l| (l.kind.clone(), l.content.clone(), l.old_no, l.new_no)).collect();
        assert_eq!(lw, lc);
    }
    // A "GIT binary patch" line marks both; one inside a line only the worktree read.
    assert!(parse_commit_diff("b", "GIT binary patch\n").binary);
    assert!(parse_diff("b", "x GIT binary patch\n", (0, 0)).binary);
    assert!(!parse_commit_diff("b", "x GIT binary patch\n").binary);
}
