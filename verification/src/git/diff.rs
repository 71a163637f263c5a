//! Unified-diff parsing: hunks, line numbers, binary detection.

use crate::text::{
    chars_of, contains, has_prefix, has_substring, line_spans, lines, parse_bounded, parse_u32,
    push_chars, push_string, same_chars, spans_are, starts_with, string_of, strings_view, strip_all,
    trim, trim_span, trim_start_matches, word_spans, words,
};
use vstd::prelude::*;
use vstd::slice::slice_subrange;

verus! {

/// One line of a hunk: `kind` is `"add"`, `"del"` or `"context"`.
#[derive(Debug, Clone)]
pub struct DiffLine {
    pub kind: String,
    pub content: String,
    pub old_no: Option<u32>,
    pub new_no: Option<u32>,
}

/// One hunk of a diff.
#[derive(Debug, Clone)]
pub struct DiffHunk {
    pub header: String,
    pub old_start: u32,
    pub old_lines: u32,
    pub new_start: u32,
    pub new_lines: u32,
    pub lines: Vec<DiffLine>,
}

/// The diff of one file.
#[derive(Debug, Clone)]
pub struct FileDiff {
    pub path: String,
    pub old_path: Option<String>,
    pub hunks: Vec<DiffHunk>,
    pub binary: bool,
    pub added: u32,
    pub removed: u32,
}

#[verifier::ext_equal]
pub struct DiffLineModel {
    pub kind: Seq<char>,
    pub content: Seq<char>,
    pub old_no: Option<int>,
    pub new_no: Option<int>,
}

#[verifier::ext_equal]
pub struct HunkModel {
    pub header: Seq<char>,
    pub old_start: int,
    pub old_lines: int,
    pub new_start: int,
    pub new_lines: int,
    pub lines: Seq<DiffLineModel>,
}

#[verifier::ext_equal]
pub struct FileDiffModel {
    pub path: Seq<char>,
    pub old_path: Option<Seq<char>>,
    pub hunks: Seq<HunkModel>,
    pub binary: bool,
    pub added: int,
    pub removed: int,
}

pub open spec fn opt_u32(o: Option<u32>) -> Option<int> {
    match o {
        Some(v) => Some(v as int),
        None => None,
    }
}

pub open spec fn opt_string(o: Option<String>) -> Option<Seq<char>> {
    match o {
        Some(s) => Some(s@),
        None => None,
    }
}

impl View for DiffLine {
    type V = DiffLineModel;

    open spec fn view(&self) -> DiffLineModel {
        DiffLineModel {
            kind: self.kind@,
            content: self.content@,
            old_no: opt_u32(self.old_no),
            new_no: opt_u32(self.new_no),
        }
    }
}

pub open spec fn diff_lines_view(v: Seq<DiffLine>) -> Seq<DiffLineModel> {
    v.map_values(|l: DiffLine| l@)
}

impl View for DiffHunk {
    type V = HunkModel;

    open spec fn view(&self) -> HunkModel {
        HunkModel {
            header: self.header@,
            old_start: self.old_start as int,
            old_lines: self.old_lines as int,
            new_start: self.new_start as int,
            new_lines: self.new_lines as int,
            lines: diff_lines_view(self.lines@),
        }
    }
}

pub open spec fn hunks_view(v: Seq<DiffHunk>) -> Seq<HunkModel> {
    v.map_values(|h: DiffHunk| h@)
}

impl View for FileDiff {
    type V = FileDiffModel;

    open spec fn view(&self) -> FileDiffModel {
        FileDiffModel {
            path: self.path@,
            old_path: opt_string(self.old_path),
            hunks: hunks_view(self.hunks@),
            binary: self.binary,
            added: self.added as int,
            removed: self.removed as int,
        }
    }
}

// ---------------------------------------------------------------------
// What a diff means
// ---------------------------------------------------------------------

/// The characters that separate the numbers of a hunk header.
pub open spec fn is_hunk_sep(c: char) -> bool {
    c == '-' || c == '+' || c == ',' || c == '@' || c == ' '
}

/// The first separator at or after `i` (or the end).
pub open spec fn next_sep(s: Seq<char>, i: int) -> int
    decreases s.len() - i,
{
    if i < 0 || i >= s.len() {
        s.len() as int
    } else if is_hunk_sep(s[i]) {
        i
    } else {
        next_sep(s, i + 1)
    }
}

/// The pieces of `s` from `start` on, split at every separator.
pub open spec fn sep_pieces_from(s: Seq<char>, start: int) -> Seq<Seq<char>>
    decreases s.len() + 1 - start,
{
    if start < 0 || start > s.len() {
        seq![]
    } else {
        let e = next_sep(s, start);
        if e < start || e > s.len() {
            seq![]
        } else if e < s.len() {
            seq![s.subrange(start, e)] + sep_pieces_from(s, e + 1)
        } else {
            seq![s.subrange(start, e)]
        }
    }
}

/// The pieces that read as `u32` numbers, in order.
pub open spec fn numbers_of(ps: Seq<Seq<char>>) -> Seq<int>
    decreases ps.len(),
{
    if ps.len() == 0 {
        seq![]
    } else {
        match parse_bounded(ps.last(), u32::MAX as nat) {
            Some(v) => numbers_of(ps.drop_last()).push(v as int),
            None => numbers_of(ps.drop_last()),
        }
    }
}

/// The numbers of a hunk header (the text after `"@@ "`).
pub open spec fn hunk_numbers(h: Seq<char>) -> Seq<int> {
    numbers_of(sep_pieces_from(h, 0))
}

/// `(old_start, old_lines, new_start, new_lines)` of a hunk header.
pub open spec fn hunk_range(h: Seq<char>) -> (int, int, int, int) {
    let n = hunk_numbers(h);
    if n.len() == 4 {
        (n[0], n[1], n[2], n[3])
    } else if n.len() == 2 {
        (n[0], 1, n[1], 1)
    } else {
        (0, 0, 0, 0)
    }
}

/// The state of the hunk parser between two lines.
#[verifier::ext_equal]
pub struct DiffState {
    pub hunks: Seq<HunkModel>,
    pub current: Option<HunkModel>,
    pub old_no: int,
    pub new_no: int,
    pub old_path: Option<Seq<char>>,
    pub binary: bool,
}

/// The parser before any line: no hunk, no old path, not binary.
pub open spec fn start_state() -> DiffState {
    DiffState {
        hunks: seq![],
        current: None,
        old_no: 0,
        new_no: 0,
        old_path: None,
        binary: false,
    }
}

pub open spec fn with_line(st: DiffState, h: HunkModel, l: DiffLineModel) -> DiffState {
    DiffState { current: Some(HunkModel { lines: h.lines.push(l), ..h }), ..st }
}

/// The effect of one line of diff output. `worktree` selects the rules of
/// `git diff` (old path recorded, `+++` lines skipped inside hunks) over
/// those of `git show`.
pub open spec fn diff_step(st: DiffState, raw: Seq<char>, worktree: bool) -> DiffState {
    if starts_with(raw, "Binary files "@) || starts_with(raw, "GIT binary patch"@) {
        DiffState { binary: true, ..st }
    } else if starts_with(raw, "--- "@) {
        let rest = raw.skip(4);
        if worktree && rest != "/dev/null"@ {
            DiffState { old_path: Some(trim_start_matches(rest, "a/"@)), ..st }
        } else {
            st
        }
    } else if starts_with(raw, "+++ "@) {
        st
    } else if starts_with(raw, "@@ "@) {
        let r = hunk_range(raw.skip(3));
        DiffState {
            hunks: match st.current {
                Some(c) => st.hunks.push(c),
                None => st.hunks,
            },
            current: Some(
                HunkModel {
                    header: raw,
                    old_start: r.0,
                    old_lines: r.1,
                    new_start: r.2,
                    new_lines: r.3,
                    lines: seq![],
                },
            ),
            old_no: r.0,
            new_no: r.2,
            ..st
        }
    } else {
        match st.current {
            None => st,
            Some(h) => if raw.len() > 0 && raw[0] == '+' {
                if worktree && starts_with(raw, "+++"@) {
                    st
                } else {
                    DiffState {
                        new_no: st.new_no + 1,
                        ..with_line(
                            st,
                            h,
                            DiffLineModel {
                                kind: "add"@,
                                content: raw.skip(1),
                                old_no: None,
                                new_no: Some(st.new_no),
                            },
                        )
                    }
                }
            } else if raw.len() > 0 && raw[0] == '-' {
                DiffState {
                    old_no: st.old_no + 1,
                    ..with_line(
                        st,
                        h,
                        DiffLineModel {
                            kind: "del"@,
                            content: raw.skip(1),
                            old_no: Some(st.old_no),
                            new_no: None,
                        },
                    )
                }
            } else if raw.len() > 0 && raw[0] == ' ' {
                DiffState {
                    old_no: st.old_no + 1,
                    new_no: st.new_no + 1,
                    ..with_line(
                        st,
                        h,
                        DiffLineModel {
                            kind: "context"@,
                            content: raw.skip(1),
                            old_no: Some(st.old_no),
                            new_no: Some(st.new_no),
                        },
                    )
                }
            } else {
                st
            },
        }
    }
}

/// The parser's state after the lines `ls`.
pub open spec fn diff_fold(ls: Seq<Seq<char>>, worktree: bool) -> DiffState
    decreases ls.len(),
{
    if ls.len() == 0 {
        start_state()
    } else {
        diff_step(diff_fold(ls.drop_last(), worktree), ls.last(), worktree)
    }
}

/// The hunks once the open one is closed.
pub open spec fn final_hunks(st: DiffState) -> Seq<HunkModel> {
    match st.current {
        Some(c) => st.hunks.push(c),
        None => st.hunks,
    }
}

/// Both line counters fit a `u32`.
pub open spec fn counters_fit(st: DiffState) -> bool {
    0 <= st.old_no <= u32::MAX && 0 <= st.new_no <= u32::MAX
}

/// No line counter of any hunk passes `u32::MAX` (where git's own
/// counting would overflow).
pub open spec fn diff_fits(out: Seq<char>, worktree: bool) -> bool {
    forall|i: int|
        0 <= i <= lines(out).len() ==> counters_fit(#[trigger] diff_fold(lines(out).take(i), worktree))
}

/// The diff of `git diff` output for `path`, with the `--numstat` counts.
pub open spec fn worktree_diff(path: Seq<char>, out: Seq<char>, numstat: (u32, u32)) -> FileDiffModel {
    let st = diff_fold(lines(out), true);
    FileDiffModel {
        path,
        old_path: st.old_path,
        hunks: final_hunks(st),
        binary: contains(out, "Binary files "@) || contains(out, "GIT binary patch"@) || st.binary,
        added: numstat.0 as int,
        removed: numstat.1 as int,
    }
}

/// The diff of `git show` output for `path`.
pub open spec fn commit_diff(path: Seq<char>, out: Seq<char>) -> FileDiffModel {
    let st = diff_fold(lines(out), false);
    FileDiffModel {
        path,
        old_path: None,
        hunks: final_hunks(st),
        binary: contains(out, "Binary files "@) || st.binary,
        added: 0,
        removed: 0,
    }
}

/// A line that the old file has (context or removed).
pub open spec fn on_old_side(l: DiffLineModel) -> bool {
    l.kind != "add"@
}

/// A line that the new file has (context or added).
pub open spec fn on_new_side(l: DiffLineModel) -> bool {
    l.kind != "del"@
}

pub open spec fn count_old(ls: Seq<DiffLineModel>) -> int
    decreases ls.len(),
{
    if ls.len() == 0 {
        0
    } else {
        count_old(ls.drop_last()) + if on_old_side(ls.last()) {
            1int
        } else {
            0int
        }
    }
}

pub open spec fn count_new(ls: Seq<DiffLineModel>) -> int
    decreases ls.len(),
{
    if ls.len() == 0 {
        0
    } else {
        count_new(ls.drop_last()) + if on_new_side(ls.last()) {
            1int
        } else {
            0int
        }
    }
}

/// The lines of the old file are numbered on from `old_start` and those
/// of the new file on from `new_start`, in order; a line that a side lacks
/// has no number there.
pub open spec fn numbered_from(ls: Seq<DiffLineModel>, old_start: int, new_start: int) -> bool {
    forall|k: int|
        0 <= k < ls.len() ==> {
            &&& (#[trigger] ls[k]).old_no == if on_old_side(ls[k]) {
                Some(old_start + count_old(ls.take(k)))
            } else {
                None::<int>
            }
            &&& ls[k].new_no == if on_new_side(ls[k]) {
                Some(new_start + count_new(ls.take(k)))
            } else {
                None::<int>
            }
        }
}

/// The lines of hunk `h` are numbered on from its starts.
pub open spec fn hunk_numbered(h: HunkModel) -> bool {
    numbered_from(h.lines, h.old_start, h.new_start)
}

/// Every closed hunk is numbered, and so is the open one, whose counters
/// stand just past its last lines.
pub open spec fn fold_numbered(st: DiffState) -> bool {
    &&& forall|i: int| 0 <= i < st.hunks.len() ==> hunk_numbered(#[trigger] st.hunks[i])
    &&& match st.current {
        Some(h) => hunk_numbered(h) && st.old_no == h.old_start + count_old(h.lines) && st.new_no
            == h.new_start + count_new(h.lines),
        None => true,
    }
}

pub proof fn lemma_numbered_push(ls: Seq<DiffLineModel>, os: int, ns: int, l: DiffLineModel)
    requires
        numbered_from(ls, os, ns),
        l.old_no == if on_old_side(l) {
            Some(os + count_old(ls))
        } else {
            None::<int>
        },
        l.new_no == if on_new_side(l) {
            Some(ns + count_new(ls))
        } else {
            None::<int>
        },
    ensures
        numbered_from(ls.push(l), os, ns),
        count_old(ls.push(l)) == count_old(ls) + if on_old_side(l) {
            1int
        } else {
            0int
        },
        count_new(ls.push(l)) == count_new(ls) + if on_new_side(l) {
            1int
        } else {
            0int
        },
{
    let r = ls.push(l);
    assert(r.drop_last() =~= ls);
    assert forall|k: int| 0 <= k < r.len() implies {
        &&& (#[trigger] r[k]).old_no == if on_old_side(r[k]) {
            Some(os + count_old(r.take(k)))
        } else {
            None::<int>
        }
        &&& r[k].new_no == if on_new_side(r[k]) {
            Some(ns + count_new(r.take(k)))
        } else {
            None::<int>
        }
    } by {
        if k < ls.len() {
            assert(r.take(k) =~= ls.take(k));
            assert(r[k] == ls[k]);
        } else {
            assert(r.take(k) =~= ls);
        }
    }
}

pub proof fn lemma_step_numbered(st: DiffState, raw: Seq<char>, worktree: bool)
    requires
        fold_numbered(st),
    ensures
        fold_numbered(diff_step(st, raw, worktree)),
{
    reveal_strlit("add");
    reveal_strlit("del");
    reveal_strlit("context");
    assert("add"@ != "del"@ && "context"@ != "add"@ && "context"@ != "del"@) by {
        assert("add"@[0] != "del"@[0]);
        assert("context"@[0] != "add"@[0]);
        assert("context"@[0] != "del"@[0]);
    }
    let nx = diff_step(st, raw, worktree);
    if starts_with(raw, "@@ "@) && !(starts_with(raw, "Binary files "@) || starts_with(
        raw,
        "GIT binary patch"@,
    )) && !starts_with(raw, "--- "@) && !starts_with(raw, "+++ "@) {
        let e: Seq<DiffLineModel> = seq![];
        assert(count_old(e) == 0 && count_new(e) == 0);
        assert forall|i: int| 0 <= i < nx.hunks.len() implies hunk_numbered(
            #[trigger] nx.hunks[i],
        ) by {
            if i < st.hunks.len() {
                assert(nx.hunks[i] == st.hunks[i]);
            }
        }
    } else if let Some(h) = st.current {
        if nx.current != st.current {
            let l = nx.current.unwrap().lines.last();
            assert(nx.current.unwrap().lines == h.lines.push(l));
            lemma_numbered_push(h.lines, h.old_start, h.new_start, l);
        }
    }
}

pub proof fn lemma_fold_numbered(ls: Seq<Seq<char>>, worktree: bool)
    ensures
        fold_numbered(diff_fold(ls, worktree)),
    decreases ls.len(),
{
    if ls.len() > 0 {
        lemma_fold_numbered(ls.drop_last(), worktree);
        lemma_step_numbered(diff_fold(ls.drop_last(), worktree), ls.last(), worktree);
    }
}

/// In every hunk of a parsed diff, the lines of the old file are numbered
/// on from the hunk's old start and those of the new file on from its new
/// start, in the order they come; added lines have no old number and
/// removed lines no new one.
pub proof fn law_hunk_lines_numbered(path: Seq<char>, out: Seq<char>, numstat: (u32, u32))
    ensures
        forall|i: int|
            0 <= i < worktree_diff(path, out, numstat).hunks.len() ==> hunk_numbered(
                #[trigger] worktree_diff(path, out, numstat).hunks[i],
            ),
        forall|i: int|
            0 <= i < commit_diff(path, out).hunks.len() ==> hunk_numbered(
                #[trigger] commit_diff(path, out).hunks[i],
            ),
{
    lemma_fold_numbered(lines(out), true);
    lemma_fold_numbered(lines(out), false);
    let a = diff_fold(lines(out), true);
    let b = diff_fold(lines(out), false);
    assert forall|i: int| 0 <= i < final_hunks(a).len() implies hunk_numbered(
        #[trigger] final_hunks(a)[i],
    ) by {
        if i < a.hunks.len() {
            assert(final_hunks(a)[i] == a.hunks[i]);
        }
    }
    assert forall|i: int| 0 <= i < final_hunks(b).len() implies hunk_numbered(
        #[trigger] final_hunks(b)[i],
    ) by {
        if i < b.hunks.len() {
            assert(final_hunks(b)[i] == b.hunks[i]);
        }
    }
}


/// Every line that starts with `+++` is a file header (`+++ `).
pub open spec fn plus_lines_are_headers(ls: Seq<Seq<char>>) -> bool {
    forall|k: int|
        0 <= k < ls.len() && starts_with(#[trigger] ls[k], "+++"@) ==> starts_with(ls[k], "+++ "@)
}

/// Two parser states that agree on all but the old path.
pub open spec fn states_agree(a: DiffState, b: DiffState) -> bool {
    &&& a.hunks == b.hunks
    &&& a.current == b.current
    &&& a.old_no == b.old_no
    &&& a.new_no == b.new_no
    &&& a.binary == b.binary
}

pub proof fn lemma_step_agree(a: DiffState, b: DiffState, raw: Seq<char>)
    requires
        states_agree(a, b),
        starts_with(raw, "+++"@) ==> starts_with(raw, "+++ "@),
    ensures
        states_agree(diff_step(a, raw, true), diff_step(b, raw, false)),
{
}

pub proof fn lemma_fold_agree(ls: Seq<Seq<char>>)
    requires
        plus_lines_are_headers(ls),
    ensures
        states_agree(diff_fold(ls, true), diff_fold(ls, false)),
    decreases ls.len(),
{
    if ls.len() > 0 {
        let front = ls.drop_last();
        assert forall|k: int|
            0 <= k < front.len() && starts_with(#[trigger] front[k], "+++"@) implies starts_with(
            front[k],
            "+++ "@,
        ) by {
            assert(front[k] == ls[k]);
        }
        lemma_fold_agree(front);
        assert(starts_with(ls.last(), "+++"@) ==> starts_with(ls.last(), "+++ "@)) by {
            assert(ls.last() == ls[ls.len() - 1]);
        }
        lemma_step_agree(diff_fold(front, true), diff_fold(front, false), ls.last());
    }
}

/// Read as a commit's `git show` output, a text gives the same hunks as
/// read as `git diff` output, where every line of it that starts with `+++`
/// is a file header; it is binary for a commit only where it is for the
/// worktree, and exactly then where `GIT binary patch` does not occur.
pub proof fn law_commit_diff_agrees_with_worktree(path: Seq<char>, out: Seq<char>, numstat: (u32, u32))
    ensures
        commit_diff(path, out).binary ==> worktree_diff(path, out, numstat).binary,
        !contains(out, "GIT binary patch"@) ==> commit_diff(path, out).binary == worktree_diff(
            path,
            out,
            numstat,
        ).binary,
        plus_lines_are_headers(lines(out)) ==> commit_diff(path, out).hunks == worktree_diff(
            path,
            out,
            numstat,
        ).hunks,
        commit_diff(path, out).path == worktree_diff(path, out, numstat).path,
{
    if plus_lines_are_headers(lines(out)) {
        lemma_fold_agree(lines(out));
    }
    lemma_fold_binary(lines(out));
}

/// The binary flag that the lines set does not depend on the mode.
pub proof fn lemma_fold_binary(ls: Seq<Seq<char>>)
    ensures
        diff_fold(ls, true).binary == diff_fold(ls, false).binary,
    decreases ls.len(),
{
    if ls.len() > 0 {
        lemma_fold_binary(ls.drop_last());
    }
}

/// The marker that starts a diff line of kind `kind`.
pub open spec fn marker_of(kind: Seq<char>) -> char {
    if kind == "add"@ {
        '+'
    } else if kind == "del"@ {
        '-'
    } else {
        ' '
    }
}

/// `l` is one of the lines `ls`: its marker, then its content.
pub open spec fn from_source(l: DiffLineModel, ls: Seq<Seq<char>>) -> bool {
    &&& (l.kind == "add"@ || l.kind == "del"@ || l.kind == "context"@)
    &&& exists|j: int| 0 <= j < ls.len() && ls[j] == seq![marker_of(l.kind)] + l.content
}

/// Every line of every hunk, closed or open, is one of the lines `ls`.
pub open spec fn fold_sourced(st: DiffState, ls: Seq<Seq<char>>) -> bool {
    &&& forall|h: int, k: int|
        0 <= h < st.hunks.len() && 0 <= k < st.hunks[h].lines.len() ==> from_source(
            #[trigger] st.hunks[h].lines[k],
            ls,
        )
    &&& match st.current {
        Some(c) => forall|k: int| 0 <= k < c.lines.len() ==> from_source(#[trigger] c.lines[k], ls),
        None => true,
    }
}

pub proof fn lemma_source_grows(l: DiffLineModel, ls: Seq<Seq<char>>, raw: Seq<char>)
    requires
        from_source(l, ls),
    ensures
        from_source(l, ls.push(raw)),
{
    let j = choose|j: int| 0 <= j < ls.len() && ls[j] == seq![marker_of(l.kind)] + l.content;
    assert(ls.push(raw)[j] == ls[j]);
}

pub proof fn lemma_step_sourced(st: DiffState, ls: Seq<Seq<char>>, raw: Seq<char>, worktree: bool)
    requires
        fold_sourced(st, ls),
    ensures
        fold_sourced(diff_step(st, raw, worktree), ls.push(raw)),
{
    reveal_strlit("add");
    reveal_strlit("del");
    reveal_strlit("context");
    assert("add"@[0] != "del"@[0] && "context"@[0] != "add"@[0] && "context"@[0] != "del"@[0]);
    let big = ls.push(raw);
    let nx = diff_step(st, raw, worktree);
    assert(big[ls.len() as int] == raw);
    assert forall|h: int, k: int|
        0 <= h < st.hunks.len() && 0 <= k < st.hunks[h].lines.len() implies from_source(
        #[trigger] st.hunks[h].lines[k],
        big,
    ) by {
        lemma_source_grows(st.hunks[h].lines[k], ls, raw);
    }
    if let Some(c) = st.current {
        assert forall|k: int| 0 <= k < c.lines.len() implies from_source(#[trigger] c.lines[k], big) by {
            lemma_source_grows(c.lines[k], ls, raw);
        }
    }
    if let Some(c) = nx.current {
        if st.current is Some && nx.current != st.current && nx.hunks == st.hunks {
            let old = st.current->0;
            let l = c.lines.last();
            assert(c.lines == old.lines.push(l));
            assert(raw =~= seq![raw[0]] + raw.skip(1));
            assert(from_source(l, big));
            assert forall|k: int| 0 <= k < c.lines.len() implies from_source(#[trigger] c.lines[k], big) by {
                if k < old.lines.len() {
                    assert(c.lines[k] == old.lines[k]);
                }
            }
        }
    }
    assert forall|h: int, k: int|
        0 <= h < nx.hunks.len() && 0 <= k < nx.hunks[h].lines.len() implies from_source(
        #[trigger] nx.hunks[h].lines[k],
        big,
    ) by {
        if h < st.hunks.len() {
            assert(nx.hunks[h] == st.hunks[h]);
        } else {
            assert(nx.hunks[h] == st.current->0);
        }
    }
}

pub proof fn lemma_fold_sourced(ls: Seq<Seq<char>>, worktree: bool)
    ensures
        fold_sourced(diff_fold(ls, worktree), ls),
    decreases ls.len(),
{
    if ls.len() > 0 {
        lemma_fold_sourced(ls.drop_last(), worktree);
        lemma_step_sourced(diff_fold(ls.drop_last(), worktree), ls.drop_last(), ls.last(), worktree);
        assert(ls.drop_last().push(ls.last()) =~= ls);
    }
}

/// Every line of every hunk of a parsed diff, of a worktree or of a commit,
/// is a line of the output: its kind's marker (`+` added, `-` removed, a
/// space for context) followed by exactly its content.
pub proof fn law_hunk_lines_come_from_output(path: Seq<char>, out: Seq<char>, numstat: (u32, u32))
    ensures
        forall|h: int, k: int|
            0 <= h < worktree_diff(path, out, numstat).hunks.len() && 0 <= k < worktree_diff(
                path,
                out,
                numstat,
            ).hunks[h].lines.len() ==> from_source(
                #[trigger] worktree_diff(path, out, numstat).hunks[h].lines[k],
                lines(out),
            ),
        forall|h: int, k: int|
            0 <= h < commit_diff(path, out).hunks.len() && 0 <= k < commit_diff(
                path,
                out,
            ).hunks[h].lines.len() ==> from_source(
                #[trigger] commit_diff(path, out).hunks[h].lines[k],
                lines(out),
            ),
{
    lemma_fold_sourced(lines(out), true);
    lemma_fold_sourced(lines(out), false);
    let a = diff_fold(lines(out), true);
    let b = diff_fold(lines(out), false);
    assert forall|h: int, k: int|
        0 <= h < final_hunks(a).len() && 0 <= k < final_hunks(a)[h].lines.len() implies from_source(
        #[trigger] final_hunks(a)[h].lines[k],
        lines(out),
    ) by {
        if h < a.hunks.len() {
            assert(final_hunks(a)[h] == a.hunks[h]);
        }
    }
    assert forall|h: int, k: int|
        0 <= h < final_hunks(b).len() && 0 <= k < final_hunks(b)[h].lines.len() implies from_source(
        #[trigger] final_hunks(b)[h].lines[k],
        lines(out),
    ) by {
        if h < b.hunks.len() {
            assert(final_hunks(b)[h] == b.hunks[h]);
        }
    }
}

// ---------------------------------------------------------------------
// Parsing
// ---------------------------------------------------------------------

fn is_sep_char(c: char) -> (r: bool)
    ensures
        r == is_hunk_sep(c),
{
    c == '-' || c == '+' || c == ',' || c == '@' || c == ' '
}

/// The numbers of a hunk header (the text after `"@@ "`).
pub fn hunk_nums(h: &[char]) -> (r: Vec<u32>)
    ensures
        r@.map_values(|v: u32| v as int) == hunk_numbers(h@),
{
    let mut r: Vec<u32> = Vec::new();
    let mut start: usize = 0;
    let ghost mut done: Seq<Seq<char>> = seq![];
    loop
        invariant
            start <= h@.len(),
            done + sep_pieces_from(h@, start as int) == sep_pieces_from(h@, 0),
            r@.map_values(|v: u32| v as int) == numbers_of(done),
        decreases h@.len() - start,
    {
        let mut e = start;
        while e < h.len() && !is_sep_char(h[e])
            invariant
                start <= e <= h@.len(),
                next_sep(h@, start as int) == next_sep(h@, e as int),
            decreases h@.len() - e,
        {
            e = e + 1;
        }
        let piece = slice_subrange(h, start, e);
        let ghost before = r@;
        match parse_u32(piece) {
            Some(v) => {
                r.push(v);
                assert(r@.map_values(|v: u32| v as int) =~= before.map_values(|v: u32| v as int).push(
                    v as int,
                ));
            },
            None => {},
        }
        proof {
            let nd = done.push(piece@);
            assert(nd.drop_last() =~= done);
            assert(numbers_of(nd) == r@.map_values(|v: u32| v as int));
            if e < h@.len() {
                assert(sep_pieces_from(h@, start as int) == seq![piece@] + sep_pieces_from(h@, e + 1));
                assert(nd + sep_pieces_from(h@, e + 1) =~= done + sep_pieces_from(h@, start as int));
            } else {
                assert(sep_pieces_from(h@, start as int) == seq![piece@]);
                assert(nd =~= done + sep_pieces_from(h@, start as int));
            }
            done = nd;
        }
        if e == h.len() {
            return r;
        }
        start = e + 1;
    }
}

/// The state of the hunk parser.
struct HunkParser {
    hunks: Vec<DiffHunk>,
    current: Option<DiffHunk>,
    old_no: u32,
    new_no: u32,
    old_path: Option<String>,
    binary: bool,
}

impl View for HunkParser {
    type V = DiffState;

    closed spec fn view(&self) -> DiffState {
        DiffState {
            hunks: hunks_view(self.hunks@),
            current: match self.current {
                Some(h) => Some(h@),
                None => None,
            },
            old_no: self.old_no as int,
            new_no: self.new_no as int,
            old_path: opt_string(self.old_path),
            binary: self.binary,
        }
    }
}

fn text_of(s: &str) -> (r: String)
    ensures
        r@ == s@,
{
    let c = chars_of(s);
    string_of(c.as_slice())
}

impl HunkParser {
    fn new() -> (r: HunkParser)
        ensures
            r@ == start_state(),
    {
        let r = HunkParser {
            hunks: Vec::new(),
            current: None,
            old_no: 0,
            new_no: 0,
            old_path: None,
            binary: false,
        };
        assert(r@ =~= start_state());
        r
    }

    fn push_line(h: &mut DiffHunk, l: DiffLine)
        ensures
            final(h)@ == (HunkModel { lines: old(h)@.lines.push(l@), ..old(h)@ }),
    {
        let ghost before = h.lines@;
        h.lines.push(l);
        assert(diff_lines_view(h.lines@) =~= diff_lines_view(before).push(l@));
    }

    fn step(&mut self, raw: &[char], worktree: bool) -> (ok: bool)
        ensures
            ok ==> final(self)@ == diff_step(old(self)@, raw@, worktree),
            !ok ==> !counters_fit(diff_step(old(self)@, raw@, worktree)),
    {
        proof {
            reveal_strlit("--- ");
            reveal_strlit("@@ ");
        }
        let bin1 = chars_of("Binary files ");
        let bin2 = chars_of("GIT binary patch");
        if has_prefix(raw, bin1.as_slice()) || has_prefix(raw, bin2.as_slice()) {
            self.binary = true;
            return true;
        }
        let minus3 = chars_of("--- ");
        if has_prefix(raw, minus3.as_slice()) {
            let rest = slice_subrange(raw, 4, raw.len());
            assert(rest@ == raw@.skip(4));
            if worktree {
                let dn = chars_of("/dev/null");
                if !same_chars(rest, dn.as_slice()) {
                    let ap = chars_of("a/");
                    proof {
                        reveal_strlit("a/");
                    }
                    let k = strip_all(rest, ap.as_slice());
                    self.old_path = Some(string_of(slice_subrange(rest, k, rest.len())));
                }
            }
            return true;
        }
        let plus3 = chars_of("+++ ");
        if has_prefix(raw, plus3.as_slice()) {
            return true;
        }
        let at = chars_of("@@ ");
        if has_prefix(raw, at.as_slice()) {
            let h = slice_subrange(raw, 3, raw.len());
            let nums = hunk_nums(h);
            let ghost nv = nums@.map_values(|v: u32| v as int);
            assert(nv.len() == nums@.len());
            let (os, ol, ns, nl): (u32, u32, u32, u32) = if nums.len() == 4 {
                assert(nv[0] == nums@[0] as int && nv[1] == nums@[1] as int && nv[2] == nums@[2] as int
                    && nv[3] == nums@[3] as int);
                (nums[0], nums[1], nums[2], nums[3])
            } else if nums.len() == 2 {
                assert(nv[0] == nums@[0] as int && nv[1] == nums@[1] as int);
                (nums[0], 1, nums[1], 1)
            } else {
                (0, 0, 0, 0)
            };
            let ghost before = self.hunks@;
            match self.current.take() {
                Some(c) => {
                    self.hunks.push(c);
                    assert(hunks_view(self.hunks@) =~= hunks_view(before).push(c@));
                },
                None => {},
            }
            let hunk = DiffHunk {
                header: string_of(raw),
                old_start: os,
                old_lines: ol,
                new_start: ns,
                new_lines: nl,
                lines: Vec::new(),
            };
            assert(diff_lines_view(hunk.lines@) =~= Seq::<DiffLineModel>::empty());
            self.current = Some(hunk);
            self.old_no = os;
            self.new_no = ns;
            assert(self@ =~= diff_step(old(self)@, raw@, worktree));
            return true;
        }
        match self.current.take() {
            None => {
                return true;
            },
            Some(mut h) => {
                if raw.len() > 0 && raw[0] == '+' {
                    let p3 = chars_of("+++");
                    if worktree && has_prefix(raw, p3.as_slice()) {
                        self.current = Some(h);
                        return true;
                    }
                    if self.new_no == u32::MAX {
                        return false;
                    }
                    let l = DiffLine {
                        kind: text_of("add"),
                        content: string_of(slice_subrange(raw, 1, raw.len())),
                        old_no: None,
                        new_no: Some(self.new_no),
                    };
                    Self::push_line(&mut h, l);
                    self.new_no = self.new_no + 1;
                    self.current = Some(h);
                    assert(self@ =~= diff_step(old(self)@, raw@, worktree));
                    true
                } else if raw.len() > 0 && raw[0] == '-' {
                    if self.old_no == u32::MAX {
                        return false;
                    }
                    let l = DiffLine {
                        kind: text_of("del"),
                        content: string_of(slice_subrange(raw, 1, raw.len())),
                        old_no: Some(self.old_no),
                        new_no: None,
                    };
                    Self::push_line(&mut h, l);
                    self.old_no = self.old_no + 1;
                    self.current = Some(h);
                    assert(self@ =~= diff_step(old(self)@, raw@, worktree));
                    true
                } else if raw.len() > 0 && raw[0] == ' ' {
                    if self.old_no == u32::MAX || self.new_no == u32::MAX {
                        return false;
                    }
                    let l = DiffLine {
                        kind: text_of("context"),
                        content: string_of(slice_subrange(raw, 1, raw.len())),
                        old_no: Some(self.old_no),
                        new_no: Some(self.new_no),
                    };
                    Self::push_line(&mut h, l);
                    self.old_no = self.old_no + 1;
                    self.new_no = self.new_no + 1;
                    self.current = Some(h);
                    assert(self@ =~= diff_step(old(self)@, raw@, worktree));
                    true
                } else {
                    self.current = Some(h);
                    true
                }
            },
        }
    }

    /// The hunks, the open one closed.
    fn finish(self) -> (r: (Vec<DiffHunk>, Option<String>, bool))
        ensures
            hunks_view(r.0@) == final_hunks(self@),
            opt_string(r.1) == self@.old_path,
            r.2 == self@.binary,
    {
        let mut hunks = self.hunks;
        let ghost before = hunks@;
        match self.current {
            Some(c) => {
                hunks.push(c);
                assert(hunks_view(hunks@) =~= hunks_view(before).push(c@));
            },
            None => {},
        }
        (hunks, self.old_path, self.binary)
    }
}

/// Runs the hunk parser over all lines; `None` where a counter would pass
/// `u32::MAX`.
fn run_parser(out: &[char], worktree: bool) -> (r: Option<HunkParser>)
    ensures
        r is Some <==> diff_fits(out@, worktree),
        r matches Some(p) ==> p@ == diff_fold(lines(out@), worktree),
{
    let spans = line_spans(out);
    let ghost ls = lines(out@);
    let mut p = HunkParser::new();
    let mut i: usize = 0;
    assert(ls.take(0) =~= Seq::<Seq<char>>::empty());
    while i < spans.len()
        invariant
            i <= spans@.len(),
            ls == lines(out@),
            spans_are(out@, spans@, ls),
            p@ == diff_fold(ls.take(i as int), worktree),
            forall|j: int| 0 <= j <= i ==> counters_fit(#[trigger] diff_fold(ls.take(j), worktree)),
        decreases spans.len() - i,
    {
        let (a, b) = spans[i];
        let raw = slice_subrange(out, a, b);
        assert(raw@ == ls[i as int]);
        assert(ls.take(i + 1).drop_last() =~= ls.take(i as int));
        assert(ls.take(i + 1).last() == ls[i as int]);
        let ok = p.step(raw, worktree);
        if !ok {
            assert(!counters_fit(diff_fold(ls.take(i + 1), worktree)));
            return None;
        }
        i = i + 1;
    }
    assert(ls.take(spans@.len() as int) =~= ls);
    Some(p)
}

/// Whether diff output can be parsed: no hunk's line counters pass
/// `u32::MAX`.
pub fn diff_output_fits(stdout: &str, worktree: bool) -> (r: bool)
    ensures
        r == diff_fits(stdout@, worktree),
{
    let t = chars_of(stdout);
    run_parser(t.as_slice(), worktree).is_some()
}

/// The diff that `git diff` printed for `path`, with the `--numstat`
/// counts.
pub fn parse_diff(path: &str, stdout: &str, numstat: (u32, u32)) -> (r: FileDiff)
    requires
        diff_fits(stdout@, true),
    ensures
        r@ == worktree_diff(path@, stdout@, numstat),
{
    let t = chars_of(stdout);
    let bin1 = chars_of("Binary files ");
    let bin2 = chars_of("GIT binary patch");
    let b0 = has_substring(t.as_slice(), bin1.as_slice()) || has_substring(
        t.as_slice(),
        bin2.as_slice(),
    );
    let p = run_parser(t.as_slice(), true).unwrap();
    let (hunks, old_path, binary) = p.finish();
    let r = FileDiff {
        path: text_of(path),
        old_path,
        hunks,
        binary: b0 || binary,
        added: numstat.0,
        removed: numstat.1,
    };
    assert(r@ =~= worktree_diff(path@, stdout@, numstat));
    r
}

/// The diff that `git show` printed for `path`.
pub fn parse_commit_diff(path: &str, stdout: &str) -> (r: FileDiff)
    requires
        diff_fits(stdout@, false),
    ensures
        r@ == commit_diff(path@, stdout@),
{
    let t = chars_of(stdout);
    let bin1 = chars_of("Binary files ");
    let b0 = has_substring(t.as_slice(), bin1.as_slice());
    let p = run_parser(t.as_slice(), false).unwrap();
    let (hunks, _old_path, binary) = p.finish();
    let r = FileDiff {
        path: text_of(path),
        old_path: None,
        hunks,
        binary: b0 || binary,
        added: 0,
        removed: 0,
    };
    assert(r@ =~= commit_diff(path@, stdout@));
    r
}


// ---------------------------------------------------------------------
// Around the parser: numstat, untracked previews, command lines
// ---------------------------------------------------------------------

/// A `--numstat` count: `-` (binary) and unreadable counts are 0.
pub open spec fn count_or_zero(w: Seq<char>) -> int {
    if w == "-"@ {
        0
    } else {
        match parse_bounded(w, u32::MAX as nat) {
            Some(v) => v as int,
            None => 0,
        }
    }
}

/// `(added, removed)` of a `--numstat` line.
pub open spec fn numstat_of(out: Seq<char>) -> (int, int) {
    let ws = words(out);
    if ws.len() >= 2 {
        (count_or_zero(ws[0]), count_or_zero(ws[1]))
    } else {
        (0, 0)
    }
}

/// The counts of a `--numstat` run: its first line, or nothing.
pub open spec fn numstat_reply(out: Option<Seq<char>>) -> (int, int) {
    match out {
        Some(o) => if lines(o).len() > 0 {
            numstat_of(lines(o)[0])
        } else {
            (0, 0)
        },
        None => (0, 0),
    }
}

fn count_of(w: &[char]) -> (r: u32)
    ensures
        r as int == count_or_zero(w@),
{
    let dash = chars_of("-");
    if same_chars(w, dash.as_slice()) {
        0
    } else {
        match parse_u32(w) {
            Some(v) => v,
            None => 0,
        }
    }
}

/// `(added, removed)` of a `--numstat` line.
pub fn parse_numstat(out: &str) -> (r: (u32, u32))
    ensures
        (r.0 as int, r.1 as int) == numstat_of(out@),
{
    let t = chars_of(out);
    let ws = word_spans(t.as_slice());
    if ws.len() >= 2 {
        let (a0, b0) = ws[0];
        let (a1, b1) = ws[1];
        (count_of(slice_subrange(t.as_slice(), a0, b0)), count_of(slice_subrange(t.as_slice(), a1, b1)))
    } else {
        (0, 0)
    }
}

/// The counts from the output of a `--numstat` run, or `(0, 0)` where the
/// run failed or printed nothing.
pub fn numstat_result(out: Option<&str>) -> (r: (u32, u32))
    ensures
        (r.0 as int, r.1 as int) == numstat_reply(
            match out {
                Some(o) => Some(o@),
                None => None,
            },
        ),
{
    match out {
        Some(o) => {
            let t = chars_of(o);
            let spans = line_spans(t.as_slice());
            if spans.len() > 0 {
                let (a, b) = spans[0];
                let first = string_of(slice_subrange(t.as_slice(), a, b));
                parse_numstat(first.as_str())
            } else {
                (0, 0)
            }
        },
        None => (0, 0),
    }
}

/// An unstaged diff that printed nothing: the file may be untracked, and
/// is then shown whole.
pub fn needs_preview(stdout: &str, staged: bool) -> (r: bool)
    ensures
        r == (trim(stdout@).len() == 0 && !staged),
{
    let t = chars_of(stdout);
    let (a, b) = trim_span(t.as_slice());
    a == b && !staged
}

pub open spec fn preview_lines(ls: Seq<Seq<char>>) -> Seq<DiffLineModel> {
    Seq::new(
        ls.len(),
        |i: int|
            DiffLineModel { kind: "add"@, content: ls[i], old_no: None, new_no: Some(i + 1) },
    )
}

/// The diff that shows an untracked file whole: one hunk of added lines,
/// or, where the file could not be read as text, a binary diff.
pub open spec fn untracked_preview(path: Seq<char>, content: Option<Seq<char>>) -> FileDiffModel {
    match content {
        Some(c) => FileDiffModel {
            path,
            old_path: None,
            hunks: seq![
                HunkModel {
                    header: "@@ -0,0 +1 @@"@,
                    old_start: 0,
                    old_lines: 0,
                    new_start: 1,
                    new_lines: lines(c).len() as int,
                    lines: preview_lines(lines(c)),
                },
            ],
            binary: false,
            added: lines(c).len() as int,
            removed: 0,
        },
        None => FileDiffModel {
            path,
            old_path: None,
            hunks: seq![],
            binary: true,
            added: 0,
            removed: 0,
        },
    }
}

/// The diff of an untracked file from its content (`None`: unreadable).
pub fn untracked_diff(path: &str, content: Option<&str>) -> (r: FileDiff)
    requires
        content matches Some(c) ==> lines(c@).len() <= u32::MAX,
    ensures
        r@ == untracked_preview(
            path@,
            match content {
                Some(c) => Some(c@),
                None => None,
            },
        ),
{
    match content {
        Some(c) => {
            let t = chars_of(c);
            let spans = line_spans(t.as_slice());
            let ghost ls = lines(t@);
            let n = spans.len();
            let mut dl: Vec<DiffLine> = Vec::new();
            let mut i: usize = 0;
            while i < n
                invariant
                    i <= n == spans@.len() <= u32::MAX,
                    ls == lines(t@),
                    spans_are(t@, spans@, ls),
                    diff_lines_view(dl@) =~= preview_lines(ls).take(i as int),
                decreases n - i,
            {
                let (a, b) = spans[i];
                let l = DiffLine {
                    kind: text_of("add"),
                    content: string_of(slice_subrange(t.as_slice(), a, b)),
                    old_no: None,
                    new_no: Some(i as u32 + 1),
                };
                let ghost before = dl@;
                dl.push(l);
                assert(diff_lines_view(dl@) =~= diff_lines_view(before).push(l@));
                i = i + 1;
            }
            assert(preview_lines(ls).take(n as int) =~= preview_lines(ls));
            let hunk = DiffHunk {
                header: text_of("@@ -0,0 +1 @@"),
                old_start: 0,
                old_lines: 0,
                new_start: 1,
                new_lines: n as u32,
                lines: dl,
            };
            let mut hunks: Vec<DiffHunk> = Vec::new();
            hunks.push(hunk);
            let r = FileDiff {
                path: text_of(path),
                old_path: None,
                hunks,
                binary: false,
                added: n as u32,
                removed: 0,
            };
            assert(hunks_view(r.hunks@) =~= seq![hunk@]);
            assert(r@ =~= untracked_preview(path@, Some(c@)));
            r
        },
        None => {
            let r = FileDiff {
                path: text_of(path),
                old_path: None,
                hunks: Vec::new(),
                binary: true,
                added: 0,
                removed: 0,
            };
            assert(hunks_view(r.hunks@) =~= Seq::<HunkModel>::empty());
            assert(r@ =~= untracked_preview(path@, None));
            r
        },
    }
}

/// `git diff` for one file, of the index (`staged`) or of the work tree.
pub open spec fn diff_args(rel: Seq<char>, staged: bool) -> Seq<Seq<char>> {
    seq![
        "diff"@,
        "--no-color"@,
        "--no-ext-diff"@,
        "--unified=3"@,
        "--src-prefix=a/"@,
        "--dst-prefix=b/"@,
    ] + (if staged {
        seq!["--cached"@]
    } else {
        seq![]
    }) + seq!["--"@, rel]
}

/// `git diff --numstat` for one file.
pub open spec fn numstat_args(rel: Seq<char>, staged: bool) -> Seq<Seq<char>> {
    if staged {
        seq!["diff"@, "--cached"@, "--numstat"@, "--"@, rel]
    } else {
        seq!["diff"@, "--numstat"@, "--"@, rel]
    }
}

/// `git show` of one file in one commit.
pub open spec fn show_args(hash: Seq<char>, rel: Seq<char>) -> Seq<Seq<char>> {
    seq![
        "show"@,
        "--no-color"@,
        "--no-ext-diff"@,
        "--unified=3"@,
        "--format="@,
        hash,
        "--"@,
        rel,
    ]
}

/// The arguments of `git diff` for one file.
pub fn diff_command(rel: &str, staged: bool) -> (r: Vec<String>)
    ensures
        strings_view(r@) == diff_args(rel@, staged),
{
    let mut r: Vec<String> = Vec::new();
    push_string(&mut r, "diff");
    push_string(&mut r, "--no-color");
    push_string(&mut r, "--no-ext-diff");
    push_string(&mut r, "--unified=3");
    push_string(&mut r, "--src-prefix=a/");
    push_string(&mut r, "--dst-prefix=b/");
    if staged {
        push_string(&mut r, "--cached");
    }
    push_string(&mut r, "--");
    push_string(&mut r, rel);
    assert(strings_view(r@) =~= diff_args(rel@, staged));
    r
}

/// The arguments of `git diff --numstat` for one file.
pub fn numstat_command(rel: &str, staged: bool) -> (r: Vec<String>)
    ensures
        strings_view(r@) == numstat_args(rel@, staged),
{
    let mut r: Vec<String> = Vec::new();
    push_string(&mut r, "diff");
    if staged {
        push_string(&mut r, "--cached");
    }
    push_string(&mut r, "--numstat");
    push_string(&mut r, "--");
    push_string(&mut r, rel);
    assert(strings_view(r@) =~= numstat_args(rel@, staged));
    r
}

/// The arguments of `git show` for one file in one commit.
pub fn show_command(hash: &str, rel: &str) -> (r: Vec<String>)
    ensures
        strings_view(r@) == show_args(hash@, rel@),
{
    let mut r: Vec<String> = Vec::new();
    push_string(&mut r, "show");
    push_string(&mut r, "--no-color");
    push_string(&mut r, "--no-ext-diff");
    push_string(&mut r, "--unified=3");
    push_string(&mut r, "--format=");
    push_string(&mut r, hash);
    push_string(&mut r, "--");
    push_string(&mut r, rel);
    assert(strings_view(r@) =~= show_args(hash@, rel@));
    r
}

} // verus!


