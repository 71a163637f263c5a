use mikrogit::git::files::{conflicts_resolvable, file_text, parse_conflicts, resolve_conflicts};

#[test]
fn parses_conflict_markers() {
    let content = "before\n<<<<<<< HEAD\ncurrent line\n=======\nincoming line\n>>>>>>> feature\nafter\n";
    let cf = parse_conflicts(content, "f.txt");
    assert!(cf.has_conflicts);
    assert_eq!(cf.regions.len(), 1);
    let r = &cf.regions[0];
    assert_eq!(r.current_header, "HEAD");
    assert_eq!(r.current_lines, vec!["current line"]);
    assert_eq!(r.incoming_header, "feature");
    assert_eq!(r.incoming_lines, vec!["incoming line"]);
    assert_eq!(cf.original_content, content);

    let no_conflict = parse_conflicts("clean file\n", "f.txt");
    assert!(!no_conflict.has_conflicts);
}

#[test]
fn resolves_conflict_choices() {
    let content = "a\n<<<<<<< HEAD\ncur\n=======\ninc\n>>>>>>> b\nc\n";
    let resolved = resolve_conflicts(content, &["incoming".to_string()]).unwrap();
    assert_eq!(resolved, "a\ninc\nc\n");

    let both = resolve_conflicts(content, &["both".to_string()]).unwrap();
    assert_eq!(both, "a\ncur\ninc\nc\n");

    let current = resolve_conflicts(content, &["current".to_string()]).unwrap();
    assert_eq!(current, "a\ncur\nc\n");

    // Unresolved keeps markers.
    let none = resolve_conflicts(content, &[]).unwrap();
    assert_eq!(none, content);
}

#[test]
fn unresolved_text_comes_back_unchanged() {
    let content = "a\n<<<<<<< HEAD\nx\n=======\ny\n>>>>>>> topic\nb\n";
    assert_eq!(resolve_conflicts(content, &[]).unwrap(), content);
    assert_eq!(resolve_conflicts("plain\ntext\n", &[]).unwrap(), "plain\ntext\n");
}

#[test]
fn full_choices_always_resolve() {
    let content = "<<<<<<< HEAD\nx\n=======\ny\n<<<<<<< HEAD\nunclosed\n";
    let cf = parse_conflicts(content, "f");
    assert_eq!(cf.regions.len(), 1);
    let choices = vec!["both".to_string()];
    assert!(conflicts_resolvable(content, &choices));
    assert_eq!(resolve_conflicts(content, &choices).unwrap(), "x\ny\n<<<<<<< HEAD\nunclosed\n");
}

#[test]
fn merge_editor_steps() {
    // What git leaves in a file after a conflicting merge of `feat` into `main`.
    let raw = "line1\n<<<<<<< HEAD\nmain change\n=======\nfeat change\n>>>>>>> feat\n";
    let cf = parse_conflicts(raw, "file.txt");
    assert!(cf.has_conflicts);
    assert_eq!(cf.regions.len(), 1);
    assert_eq!(cf.regions[0].current_header, "HEAD");
    assert_eq!(cf.regions[0].current_lines, vec!["main change"]);
    assert_eq!(cf.regions[0].incoming_header, "feat");
    assert_eq!(cf.regions[0].incoming_lines, vec!["feat change"]);
    assert_eq!(cf.original_content, raw);
    let resolved = resolve_conflicts(&cf.original_content, &["incoming".to_string()]).unwrap();
    assert_eq!(resolved, "line1\nfeat change\n");
    // Saved and read back in a preview, it is unchanged and has no conflicts left.
    assert_eq!(file_text(resolved.as_bytes(), 1024).unwrap(), resolved);
    assert!(!parse_conflicts(&resolved, "file.txt").has_conflicts);
}

#[test]
fn full_resolution_leaves_no_conflict() {
    let content = "a\n<<<<<<< HEAD\nx\n=======\ny\n>>>>>>> t\nb\n  <<<<<<< HEAD\nc\n=======\nd\n>>>>>>> t\r\n";
    let cf = parse_conflicts(content, "f");
    assert_eq!(cf.regions.len(), 2);
    for choice in ["current", "incoming", "both"] {
        let choices = vec![choice.to_string(), "both".to_string()];
        let out = resolve_conflicts(content, &choices).unwrap();
        let again = parse_conflicts(&out, "f");
        assert!(!again.has_conflicts && again.regions.is_empty(), "{choice}: {out:?}");
    }
}
