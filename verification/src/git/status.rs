//! Parsing of `git status --porcelain=v2 --branch` output.

use crate::git::{GitError, GitOutput};
use crate::text::{
    chars_of, has_prefix, line_spans, lines, parse_bounded, parse_u32, push_string, same_chars,
    joined_with, spans_are, split, split_spans, splitn, splitn_spans, starts_with, string_of,
    strings_view, word_spans, words,
};
use vstd::prelude::*;
use vstd::slice::slice_subrange;

verus! {

/// The state of a file in the index or the work tree.
#[derive(Debug, Clone, Copy, PartialEq, Eq, Structural)]
pub enum FileStatus {
    Modified,
    Added,
    Deleted,
    Renamed,
    Copied,
    Untracked,
    Ignored,
    Unmerged,
}

/// The status that a porcelain status letter stands for.
pub open spec fn status_of_code(c: char) -> Option<FileStatus> {
    if c == 'M' {
        Some(FileStatus::Modified)
    } else if c == 'A' {
        Some(FileStatus::Added)
    } else if c == 'D' {
        Some(FileStatus::Deleted)
    } else if c == 'R' {
        Some(FileStatus::Renamed)
    } else if c == 'C' {
        Some(FileStatus::Copied)
    } else if c == '?' {
        Some(FileStatus::Untracked)
    } else if c == '!' {
        Some(FileStatus::Ignored)
    } else if c == 'U' {
        Some(FileStatus::Unmerged)
    } else {
        None
    }
}

impl FileStatus {
    /// The status that a porcelain status letter stands for.
    pub fn from_xy(c: char) -> (r: Option<FileStatus>)
        ensures
            r == status_of_code(c),
    {
        match c {
            'M' => Some(FileStatus::Modified),
            'A' => Some(FileStatus::Added),
            'D' => Some(FileStatus::Deleted),
            'R' => Some(FileStatus::Renamed),
            'C' => Some(FileStatus::Copied),
            '?' => Some(FileStatus::Untracked),
            '!' => Some(FileStatus::Ignored),
            'U' => Some(FileStatus::Unmerged),
            _ => None,
        }
    }
}

/// One changed file.
#[derive(Debug, Clone)]
pub struct FileEntry {
    pub path: String,
    pub original_path: Option<String>,
    pub index_status: Option<FileStatus>,
    pub worktree_status: Option<FileStatus>,
}

/// The state of the checked-out branch.
#[derive(Debug, Clone)]
pub struct BranchInfo {
    pub name: Option<String>,
    pub upstream: Option<String>,
    pub ahead: u32,
    pub behind: u32,
    pub detached: bool,
}

/// The status of a repository, grouped as a source-control view shows it.
#[derive(Debug, Clone)]
pub struct RepoStatus {
    pub branch: BranchInfo,
    pub staged: Vec<FileEntry>,
    pub unstaged: Vec<FileEntry>,
    pub untracked: Vec<FileEntry>,
    pub unmerged: Vec<FileEntry>,
}

pub struct FileEntryModel {
    pub path: Seq<char>,
    pub original_path: Option<Seq<char>>,
    pub index_status: Option<FileStatus>,
    pub worktree_status: Option<FileStatus>,
}

pub struct BranchModel {
    pub name: Option<Seq<char>>,
    pub upstream: Option<Seq<char>>,
    pub ahead: nat,
    pub behind: nat,
    pub detached: bool,
}

pub struct StatusModel {
    pub branch: BranchModel,
    pub staged: Seq<FileEntryModel>,
    pub unstaged: Seq<FileEntryModel>,
    pub untracked: Seq<FileEntryModel>,
    pub unmerged: Seq<FileEntryModel>,
}

pub open spec fn opt_view(o: Option<String>) -> Option<Seq<char>> {
    match o {
        Some(s) => Some(s@),
        None => None,
    }
}

impl View for FileEntry {
    type V = FileEntryModel;

    open spec fn view(&self) -> FileEntryModel {
        FileEntryModel {
            path: self.path@,
            original_path: opt_view(self.original_path),
            index_status: self.index_status,
            worktree_status: self.worktree_status,
        }
    }
}

impl View for BranchInfo {
    type V = BranchModel;

    open spec fn view(&self) -> BranchModel {
        BranchModel {
            name: opt_view(self.name),
            upstream: opt_view(self.upstream),
            ahead: self.ahead as nat,
            behind: self.behind as nat,
            detached: self.detached,
        }
    }
}

pub open spec fn entries_view(v: Seq<FileEntry>) -> Seq<FileEntryModel> {
    v.map_values(|e: FileEntry| e@)
}

impl View for RepoStatus {
    type V = StatusModel;

    open spec fn view(&self) -> StatusModel {
        StatusModel {
            branch: self.branch@,
            staged: entries_view(self.staged@),
            unstaged: entries_view(self.unstaged@),
            untracked: entries_view(self.untracked@),
            unmerged: entries_view(self.unmerged@),
        }
    }
}

pub open spec fn empty_branch() -> BranchModel {
    BranchModel { name: None, upstream: None, ahead: 0, behind: 0, detached: false }
}

pub open spec fn empty_status() -> StatusModel {
    StatusModel {
        branch: empty_branch(),
        staged: seq![],
        unstaged: seq![],
        untracked: seq![],
        unmerged: seq![],
    }
}

impl BranchInfo {
    /// No branch known yet.
    pub fn new() -> (r: BranchInfo)
        ensures
            r@ == empty_branch(),
    {
        BranchInfo { name: None, upstream: None, ahead: 0, behind: 0, detached: false }
    }
}

impl RepoStatus {
    /// The status of a clean repository with no branch information.
    pub fn new() -> (r: RepoStatus)
        ensures
            r@ == empty_status(),
    {
        let r = RepoStatus {
            branch: BranchInfo::new(),
            staged: Vec::new(),
            unstaged: Vec::new(),
            untracked: Vec::new(),
            unmerged: Vec::new(),
        };
        assert(r@.staged =~= Seq::<FileEntryModel>::empty());
        assert(r@.unstaged =~= Seq::<FileEntryModel>::empty());
        assert(r@.untracked =~= Seq::<FileEntryModel>::empty());
        assert(r@.unmerged =~= Seq::<FileEntryModel>::empty());
        r
    }
}

// ---------------------------------------------------------------------
// What a porcelain v2 output means
// ---------------------------------------------------------------------

/// The effect of one `+N` / `-N` word of a `# branch.ab` header.
pub open spec fn ab_word(b: BranchModel, w: Seq<char>) -> BranchModel {
    if w.len() > 0 && w[0] == '+' {
        BranchModel {
            ahead: match parse_bounded(w.drop_first(), u32::MAX as nat) {
                Some(n) => n,
                None => 0,
            },
            ..b
        }
    } else if w.len() > 0 && w[0] == '-' {
        BranchModel {
            behind: match parse_bounded(w.drop_first(), u32::MAX as nat) {
                Some(n) => n,
                None => 0,
            },
            ..b
        }
    } else {
        b
    }
}

pub open spec fn ab_words(b: BranchModel, ws: Seq<Seq<char>>) -> BranchModel
    decreases ws.len(),
{
    if ws.len() == 0 {
        b
    } else {
        ab_word(ab_words(b, ws.drop_last()), ws.last())
    }
}

/// The effect of a `# branch.` header line on the branch state.
pub open spec fn branch_header(b: BranchModel, line: Seq<char>) -> BranchModel {
    let body = if starts_with(line, "# branch."@) {
        line.skip("# branch."@.len() as int)
    } else {
        line
    };
    if starts_with(body, "head "@) {
        let head = body.skip("head "@.len() as int);
        if head == "(detached)"@ {
            BranchModel { detached: true, name: None, ..b }
        } else {
            BranchModel { name: Some(head), ..b }
        }
    } else if starts_with(body, "upstream "@) {
        let up = body.skip("upstream "@.len() as int);
        BranchModel {
            upstream: if up == "(upstream)"@ {
                None
            } else {
                Some(up)
            },
            ..b
        }
    } else if starts_with(body, "ab "@) {
        ab_words(b, words(body.skip("ab "@.len() as int)))
    } else {
        b
    }
}

/// A status letter that marks a change (anything but `.`, `?` and `!`).
pub open spec fn is_change(c: char) -> bool {
    c != '.' && c != '?' && c != '!'
}

/// A change of `path` with index letter `x` and work-tree letter `y`,
/// recorded as staged and/or unstaged.
pub open spec fn change(
    st: StatusModel,
    path: Seq<char>,
    orig: Option<Seq<char>>,
    x: char,
    y: char,
) -> StatusModel {
    StatusModel {
        staged: if is_change(x) {
            st.staged.push(
                FileEntryModel {
                    path,
                    original_path: orig,
                    index_status: status_of_code(x),
                    worktree_status: None,
                },
            )
        } else {
            st.staged
        },
        unstaged: if is_change(y) {
            st.unstaged.push(
                FileEntryModel {
                    path,
                    original_path: orig,
                    index_status: None,
                    worktree_status: status_of_code(y),
                },
            )
        } else {
            st.unstaged
        },
        ..st
    }
}

pub open spec fn first_or_dot(s: Seq<char>, i: int) -> char {
    if i < s.len() {
        s[i]
    } else {
        '.'
    }
}

pub open spec fn piece_or(ps: Seq<Seq<char>>, i: int, d: Seq<char>) -> Seq<char> {
    if 0 <= i < ps.len() {
        ps[i]
    } else {
        d
    }
}

/// `1 <XY> <sub> <mH> <mI> <mW> <hH> <hI> <path>`, the path being the rest
/// of the line (it may hold spaces).
pub open spec fn ordinary_line(st: StatusModel, line: Seq<char>) -> StatusModel {
    let parts = splitn(line.skip(2), seq![' '], 8);
    let xy = piece_or(parts, 0, ".."@);
    let path = piece_or(parts, 7, seq![]);
    change(st, path, None, first_or_dot(xy, 0), first_or_dot(xy, 1))
}

/// `2 <XY> <sub> <mH> <mI> <mW> <hH> <hI> <X><score> <path><TAB><origPath>`
pub open spec fn renamed_line(st: StatusModel, line: Seq<char>) -> StatusModel {
    let tabs = split(line, seq!['\t']);
    let head = if tabs.len() == 2 {
        tabs[0]
    } else {
        line
    };
    let orig = if tabs.len() == 2 {
        Some(tabs[1])
    } else {
        None
    };
    let parts = splitn(head, seq![' '], 10);
    let xy = piece_or(parts, 1, ".."@);
    let path = piece_or(parts, 9, seq![]);
    change(st, path, orig, first_or_dot(xy, 0), first_or_dot(xy, 1))
}

/// `u <XY> <sub> <m1> <m2> <m3> <mW> <h1> <h2> <h3> <path>`
pub open spec fn unmerged_line(st: StatusModel, line: Seq<char>) -> StatusModel {
    let parts = splitn(line, seq![' '], 11);
    StatusModel {
        unmerged: st.unmerged.push(
            FileEntryModel {
                path: piece_or(parts, 10, seq![]),
                original_path: None,
                index_status: Some(FileStatus::Unmerged),
                worktree_status: Some(FileStatus::Unmerged),
            },
        ),
        ..st
    }
}

/// `? <path>`
pub open spec fn untracked_line(st: StatusModel, line: Seq<char>) -> StatusModel {
    StatusModel {
        untracked: st.untracked.push(
            FileEntryModel {
                path: line.skip(2),
                original_path: None,
                index_status: None,
                worktree_status: Some(FileStatus::Untracked),
            },
        ),
        ..st
    }
}

/// The effect of one line of porcelain v2 output.
pub open spec fn porcelain_line(st: StatusModel, line: Seq<char>) -> StatusModel {
    if starts_with(line, "# branch."@) {
        StatusModel { branch: branch_header(st.branch, line), ..st }
    } else if starts_with(line, "# "@) || line.len() == 0 {
        st
    } else if line[0] == '1' {
        ordinary_line(st, line)
    } else if line[0] == '2' {
        renamed_line(st, line)
    } else if line[0] == 'u' {
        unmerged_line(st, line)
    } else if line[0] == '?' {
        untracked_line(st, line)
    } else {
        st
    }
}

/// The status that a sequence of porcelain v2 lines describes.
pub open spec fn porcelain(ls: Seq<Seq<char>>) -> StatusModel
    decreases ls.len(),
{
    if ls.len() == 0 {
        empty_status()
    } else {
        porcelain_line(porcelain(ls.drop_last()), ls.last())
    }
}

/// A porcelain line `l` and a newline read back as the one line `l`, which
/// is not a comment; `l` starts with `k`.
proof fn lemma_one_line(l: Seq<char>, k: char)
    requires
        !l.contains('\n'),
        l.len() > 0 && l[0] == k && k != '#',
        l.last() != '\r',
    ensures
        lines(l + "\n"@) == seq![l],
        porcelain(lines(l + "\n"@)) == porcelain_line(empty_status(), l),
        !starts_with(l, "# branch."@) && !starts_with(l, "# "@),
{
    reveal_strlit("\n");
    reveal_strlit("# branch.");
    reveal_strlit("# ");
    assert(l + "\n"@ =~= l + seq!['\n'] + Seq::<char>::empty());
    crate::text::lemma_lines_cons(l, Seq::<char>::empty());
    assert(lines(Seq::<char>::empty()) =~= Seq::<Seq<char>>::empty());
    let one = seq![l];
    assert(lines(l + "\n"@) =~= one);
    assert(one.drop_last() =~= Seq::<Seq<char>>::empty());
    assert(porcelain(one.drop_last()) == empty_status());
    assert(one.last() == l);
    assert(porcelain(one) == porcelain_line(empty_status(), l));
    if starts_with(l, "# branch."@) {
        assert(l.subrange(0, 9)[0] == l[0]);
    }
    if starts_with(l, "# "@) {
        assert(l.subrange(0, 2)[0] == l[0]);
    }
}

/// An untracked file of `git status` is filed under its path: the rest of
/// a `?` line after `? `, spaces and all. A path ending in `'\r'` is left
/// out: the line reader drops that `'\r'`.
pub proof fn law_untracked_path(path: Seq<char>)
    requires
        !path.contains('\n'),
        path.len() == 0 || path.last() != '\r',
    ensures
        ({
            let st = porcelain(lines("? "@ + path + "\n"@));
            &&& st.untracked == seq![
                FileEntryModel {
                    path,
                    original_path: None,
                    index_status: None,
                    worktree_status: Some(FileStatus::Untracked),
                },
            ]
            &&& st.staged.len() == 0 && st.unstaged.len() == 0 && st.unmerged.len() == 0
        }),
{
    reveal_strlit("? ");
    let l = "? "@ + path;
    assert(!l.contains('\n')) by {
        if l.contains('\n') {
            let j = choose|j: int| 0 <= j < l.len() && l[j] == '\n';
            if j >= 2 {
                assert(l[j] == path[j - 2]);
            }
        }
    }
    assert(l.last() != '\r') by {
        if path.len() > 0 {
            assert(l.last() == path.last());
        }
    }
    lemma_one_line(l, '?');
    assert(l.skip(2) =~= path);
    assert(porcelain(lines(l + "\n"@)).untracked =~= seq![
        FileEntryModel {
            path,
            original_path: None,
            index_status: None,
            worktree_status: Some(FileStatus::Untracked),
        },
    ]);
}

/// A changed file of `git status` (a `1` line `1 XY sub mH mI mW hH hI
/// path`) is filed under its path, the rest of the line, spaces and all:
/// among the staged files where `X` names a change, among the changed ones
/// where `Y` does, with the status that the letter names. A path ending in
/// `'\r'` is left out: the line reader drops that `'\r'`.
pub proof fn law_changed_path(x: char, y: char, fields: Seq<Seq<char>>, path: Seq<char>)
    requires
        x != ' ' && x != '\n' && y != ' ' && y != '\n',
        fields.len() == 6,
        forall|k: int|
            0 <= k < fields.len() ==> !(#[trigger] fields[k]).contains(' ') && !fields[k].contains(
                '\n',
            ),
        !path.contains('\n'),
        path.len() == 0 || path.last() != '\r',
    ensures
        ({
            let out = "1 "@ + joined_with(seq![seq![x, y]] + fields.push(path), ' ') + "\n"@;
            let st = porcelain(lines(out));
            let staged = x != '.' && x != '?' && x != '!';
            let changed = y != '.' && y != '?' && y != '!';
            &&& st.staged.len() == (if staged { 1int } else { 0int })
            &&& st.unstaged.len() == (if changed { 1int } else { 0int })
            &&& staged ==> st.staged[0] == FileEntryModel {
                path,
                original_path: None,
                index_status: status_of_code(x),
                worktree_status: None,
            }
            &&& changed ==> st.unstaged[0] == FileEntryModel {
                path,
                original_path: None,
                index_status: None,
                worktree_status: status_of_code(y),
            }
            &&& st.untracked.len() == 0 && st.unmerged.len() == 0
        }),
{
    reveal_strlit("1 ");
    let xy = seq![x, y];
    let ps = seq![xy] + fields;
    let all = ps.push(path);
    assert forall|i: int| 0 <= i < ps.len() implies !(#[trigger] ps[i]).contains(' ') by {
        if i > 0 {
            assert(ps[i] == fields[i - 1]);
        } else if xy.contains(' ') {
            let j = choose|j: int| 0 <= j < xy.len() && xy[j] == ' ';
            assert(j == 0 || j == 1);
        }
    }
    assert forall|i: int| 0 <= i < all.len() implies !(#[trigger] all[i]).contains('\n') by {
        if i == 0 {
            if xy.contains('\n') {
                let j = choose|j: int| 0 <= j < xy.len() && xy[j] == '\n';
                assert(j == 0 || j == 1);
            }
        } else if i < 7 {
            assert(all[i] == fields[i - 1]);
        } else {
            assert(all[i] == path);
        }
    }
    assert(seq![xy] + fields.push(path) =~= all);
    let body = joined_with(all, ' ');
    crate::text::lemma_joined_avoids(all, ' ', '\n');
    crate::text::lemma_joined_last(all, ' ');
    assert(all.last() == path);
    let l = "1 "@ + body;
    assert(!l.contains('\n')) by {
        if l.contains('\n') {
            let j = choose|j: int| 0 <= j < l.len() && l[j] == '\n';
            if j >= 2 {
                assert(l[j] == body[j - 2]);
            }
        }
    }
    assert(l.last() != '\r') by {
        if body.len() > 0 {
            assert(l.last() == body.last());
        }
    }
    lemma_one_line(l, '1');
    assert(l.skip(2) =~= body);
    crate::text::lemma_splitn_joined(seq![], ps, path, ' ');
    assert(Seq::<char>::empty() + body =~= body);
    assert(splitn(body, seq![' '], 8) == all);
    assert(piece_or(all, 0, ".."@) == xy);
    assert(piece_or(all, 7, seq![]) == path);
    assert(first_or_dot(xy, 0) == x && first_or_dot(xy, 1) == y);
}

/// An unmerged file of `git status` is filed under its path: the rest of
/// a `u` line after its nine space-free fields (`XY`, submodule state,
/// three modes and three object names), spaces and all, and only there.
/// A path ending in `'\r'` is left out: the line reader drops that `'\r'`.
pub proof fn law_unmerged_path(fields: Seq<Seq<char>>, path: Seq<char>)
    requires
        fields.len() == 9,
        forall|k: int|
            0 <= k < fields.len() ==> !(#[trigger] fields[k]).contains(' ') && !fields[k].contains(
                '\n',
            ),
        !path.contains('\n'),
        path.len() == 0 || path.last() != '\r',
    ensures
        ({
            let out = "u "@ + joined_with(fields.push(path), ' ') + "\n"@;
            let st = porcelain(lines(out));
            &&& st.unmerged == seq![
                FileEntryModel {
                    path,
                    original_path: None,
                    index_status: Some(FileStatus::Unmerged),
                    worktree_status: Some(FileStatus::Unmerged),
                },
            ]
            &&& st.staged.len() == 0 && st.unstaged.len() == 0 && st.untracked.len() == 0
        }),
{
    reveal_strlit("u ");
    reveal_strlit("\n");
    reveal_strlit("u");
    let ps = seq!["u"@] + fields;
    assert forall|i: int| 0 <= i < ps.len() implies !(#[trigger] ps[i]).contains(' ') by {
        if i > 0 {
            assert(ps[i] == fields[i - 1]);
        } else {
            assert(ps[0] =~= seq!['u']);
            if ps[0].contains(' ') {
                let j = choose|j: int| 0 <= j < ps[0].len() && ps[0][j] == ' ';
                assert(ps[0][j] == 'u');
            }
        }
    }
    let line = joined_with(ps.push(path), ' ');
    let all = ps.push(path);
    assert(all.drop_first() =~= fields.push(path));
    assert(line =~= ps[0] + seq![' '] + joined_with(all.drop_first(), ' '));
    assert(line =~= "u "@ + joined_with(fields.push(path), ' '));
    crate::text::lemma_splitn_joined(seq![], ps, path, ' ');
    assert(Seq::<char>::empty() + line =~= line);
    assert(splitn(line, seq![' '], 11) == all);
    assert(all[10] == path);
    let out = line + "\n"@;
    assert forall|i: int| 0 <= i < all.len() implies !(#[trigger] all[i]).contains('\n') by {
        if i == 0 {
            if all[0].contains('\n') {
                let j = choose|j: int| 0 <= j < all[0].len() && all[0][j] == '\n';
                assert(all[0][j] == 'u');
            }
        } else if i < 10 {
            assert(all[i] == fields[i - 1]);
        } else {
            assert(all[i] == path);
        }
    }
    crate::text::lemma_joined_avoids(all, ' ', '\n');
    assert(out =~= line + seq!['\n'] + Seq::<char>::empty());
    crate::text::lemma_lines_cons(line, Seq::<char>::empty());
    assert(lines(Seq::<char>::empty()) =~= Seq::<Seq<char>>::empty());
    crate::text::lemma_joined_last(all, ' ');
    assert(all.last() == path);
    assert(crate::text::strip_cr(line) == line);
    let one = seq![line];
    assert(lines(out) =~= one);
    assert(one.drop_last() =~= Seq::<Seq<char>>::empty());
    assert(line[0] == 'u');
    assert(!starts_with(line, "# branch."@)) by {
        reveal_strlit("# branch.");
        if starts_with(line, "# branch."@) {
            assert(line.subrange(0, 9)[0] == line[0]);
        }
    }
    assert(!starts_with(line, "# "@)) by {
        reveal_strlit("# ");
        if starts_with(line, "# "@) {
            assert(line.subrange(0, 2)[0] == line[0]);
        }
    }
    assert(porcelain(one.drop_last()) == empty_status());
    assert(porcelain(one) == porcelain_line(empty_status(), line));
    assert(porcelain_line(empty_status(), line) == unmerged_line(empty_status(), line));
    assert(piece_or(splitn(line, seq![' '], 11), 10, seq![]) == path);
    assert(out =~= "u "@ + joined_with(fields.push(path), ' ') + "\n"@);
    assert(porcelain(lines(out)).unmerged =~= seq![
        FileEntryModel {
            path,
            original_path: None,
            index_status: Some(FileStatus::Unmerged),
            worktree_status: Some(FileStatus::Unmerged),
        },
    ]);
}

/// A line whose path git's slicing at byte 2 can reach: lines of kind `1`
/// and `?` hold at least two characters, the second a one-byte one.
pub open spec fn porcelain_line_ok(line: Seq<char>) -> bool {
    (line.len() > 0 && (line[0] == '1' || line[0] == '?')) ==> (line.len() >= 2 && (line[1] as u32)
        < 0x80)
}

pub open spec fn porcelain_ok(output: Seq<char>) -> bool {
    forall|k: int| 0 <= k < lines(output).len() ==> porcelain_line_ok(#[trigger] lines(output)[k])
}


// ---------------------------------------------------------------------
// Parsing
// ---------------------------------------------------------------------

/// Applies a `# branch.` header line to the branch state.
pub fn parse_branch_header(line: &[char], branch: &mut BranchInfo)
    ensures
        final(branch)@ == branch_header(old(branch)@, line@),
{
    let bp = chars_of("# branch.");
    let start: usize = if has_prefix(line, bp.as_slice()) {
        bp.len()
    } else {
        0
    };
    let body = slice_subrange(line, start, line.len());
    assert(body@ == (if starts_with(line@, "# branch."@) {
        line@.skip("# branch."@.len() as int)
    } else {
        line@
    }));
    let hp = chars_of("head ");
    let up = chars_of("upstream ");
    let abp = chars_of("ab ");
    if has_prefix(body, hp.as_slice()) {
        let head = slice_subrange(body, hp.len(), body.len());
        let det = chars_of("(detached)");
        if same_chars(head, det.as_slice()) {
            branch.detached = true;
            branch.name = None;
        } else {
            branch.name = Some(string_of(head));
        }
    } else if has_prefix(body, up.as_slice()) {
        let u = slice_subrange(body, up.len(), body.len());
        let none = chars_of("(upstream)");
        if same_chars(u, none.as_slice()) {
            branch.upstream = None;
        } else {
            branch.upstream = Some(string_of(u));
        }
    } else if has_prefix(body, abp.as_slice()) {
        let ab = slice_subrange(body, abp.len(), body.len());
        let ws = word_spans(ab);
        let ghost start_branch = branch@;
        let mut i: usize = 0;
        while i < ws.len()
            invariant
                i <= ws@.len(),
                spans_are(ab@, ws@, words(ab@)),
                branch@ == ab_words(start_branch, words(ab@).take(i as int)),
            decreases ws.len() - i,
        {
            let (a, b) = ws[i];
            let w = slice_subrange(ab, a, b);
            assert(w@ == words(ab@)[i as int]);
            if w.len() > 0 && w[0] == '+' {
                let n = slice_subrange(w, 1, w.len());
                assert(n@ == w@.drop_first());
                branch.ahead = match parse_u32(n) {
                    Some(v) => v,
                    None => 0,
                };
            } else if w.len() > 0 && w[0] == '-' {
                let n = slice_subrange(w, 1, w.len());
                assert(n@ == w@.drop_first());
                branch.behind = match parse_u32(n) {
                    Some(v) => v,
                    None => 0,
                };
            }
            assert(words(ab@).take(i + 1).drop_last() =~= words(ab@).take(i as int));
            i = i + 1;
        }
        assert(words(ab@).take(ws@.len() as int) =~= words(ab@));
    }
}

/// Records a change of `path` as staged (index letter `x`) and/or
/// unstaged (work-tree letter `y`).
pub fn push_change(
    status: &mut RepoStatus,
    path: &[char],
    orig: Option<String>,
    x: char,
    y: char,
)
    ensures
        final(status)@ == change(old(status)@, path@, opt_view(orig), x, y),
{
    let xs = FileStatus::from_xy(x);
    let ys = FileStatus::from_xy(y);
    let ghost old_staged = status.staged@;
    let ghost old_unstaged = status.unstaged@;
    if x != '.' && x != '?' && x != '!' {
        let e = FileEntry {
            path: string_of(path),
            original_path: orig.clone(),
            index_status: xs,
            worktree_status: None,
        };
        status.staged.push(e);
        assert(entries_view(status.staged@) =~= entries_view(old_staged).push(e@));
    }
    if y != '.' && y != '?' && y != '!' {
        let e = FileEntry {
            path: string_of(path),
            original_path: orig,
            index_status: None,
            worktree_status: ys,
        };
        status.unstaged.push(e);
        assert(entries_view(status.unstaged@) =~= entries_view(old_unstaged).push(e@));
    }
}

fn piece_at<'a>(text: &'a [char], parts: &Vec<(usize, usize)>, i: usize) -> (r: Option<&'a [char]>)
    requires
        forall|k: int|
            #![trigger parts@[k]]
            0 <= k < parts@.len() ==> parts@[k].0 <= parts@[k].1 <= text@.len(),
    ensures
        i < parts@.len() ==> (r matches Some(p) && p@ == text@.subrange(
            parts@[i as int].0 as int,
            parts@[i as int].1 as int,
        )),
        i >= parts@.len() ==> r is None,
{
    if i < parts.len() {
        let (a, b) = parts[i];
        Some(slice_subrange(text, a, b))
    } else {
        None
    }
}

fn char_or_dot(s: &[char], i: usize) -> (c: char)
    ensures
        c == first_or_dot(s@, i as int),
{
    if i < s.len() {
        s[i]
    } else {
        '.'
    }
}

/// Applies one line of porcelain v2 output.
pub fn apply_porcelain_line(status: &mut RepoStatus, line: &[char])
    requires
        porcelain_line_ok(line@),
    ensures
        final(status)@ == porcelain_line(old(status)@, line@),
{
    let bp = chars_of("# branch.");
    let hp = chars_of("# ");
    let dots = chars_of("..");
    let space: Vec<char> = vec![' '];
    assert(space@ =~= seq![' ']);
    if has_prefix(line, bp.as_slice()) {
        parse_branch_header(line, &mut status.branch);
        return ;
    }
    if has_prefix(line, hp.as_slice()) || line.len() == 0 {
        return ;
    }
    let kind = line[0];
    if kind == '1' {
        let rest = slice_subrange(line, 2, line.len());
        let parts = splitn_spans(rest, space.as_slice(), 8);
        let ghost ps = splitn(rest@, seq![' '], 8);
        let xy: &[char] = match piece_at(rest, &parts, 0) {
            Some(p) => p,
            None => dots.as_slice(),
        };
        assert(xy@ == piece_or(ps, 0, ".."@));
        let path: &[char] = match piece_at(rest, &parts, 7) {
            Some(p) => p,
            None => &[],
        };
        assert(path@ =~= piece_or(ps, 7, seq![]));
        push_change(status, path, None, char_or_dot(xy, 0), char_or_dot(xy, 1));
    } else if kind == '2' {
        let tab: Vec<char> = vec!['\t'];
        assert(tab@ =~= seq!['\t']);
        let tabs = split_spans(line, tab.as_slice());
        let ghost ts = split(line@, seq!['\t']);
        let (head, orig): (&[char], Option<String>) = if tabs.len() == 2 {
            let (a0, b0) = tabs[0];
            let (a1, b1) = tabs[1];
            (slice_subrange(line, a0, b0), Some(string_of(slice_subrange(line, a1, b1))))
        } else {
            (line, None)
        };
        assert(head@ == (if ts.len() == 2 {
            ts[0]
        } else {
            line@
        }));
        assert(opt_view(orig) == (if ts.len() == 2 {
            Some(ts[1])
        } else {
            None
        }));
        let parts = splitn_spans(head, space.as_slice(), 10);
        let ghost ps = splitn(head@, seq![' '], 10);
        let xy: &[char] = match piece_at(head, &parts, 1) {
            Some(p) => p,
            None => dots.as_slice(),
        };
        assert(xy@ == piece_or(ps, 1, ".."@));
        let path: &[char] = match piece_at(head, &parts, 9) {
            Some(p) => p,
            None => &[],
        };
        assert(path@ =~= piece_or(ps, 9, seq![]));
        push_change(status, path, orig, char_or_dot(xy, 0), char_or_dot(xy, 1));
    } else if kind == 'u' {
        let parts = splitn_spans(line, space.as_slice(), 11);
        let ghost ps = splitn(line@, seq![' '], 11);
        let path: &[char] = match piece_at(line, &parts, 10) {
            Some(p) => p,
            None => &[],
        };
        assert(path@ =~= piece_or(ps, 10, seq![]));
        let e = FileEntry {
            path: string_of(path),
            original_path: None,
            index_status: Some(FileStatus::Unmerged),
            worktree_status: Some(FileStatus::Unmerged),
        };
        let ghost before = status.unmerged@;
        status.unmerged.push(e);
        assert(entries_view(status.unmerged@) =~= entries_view(before).push(e@));
    } else if kind == '?' {
        let path = slice_subrange(line, 2, line.len());
        let e = FileEntry {
            path: string_of(path),
            original_path: None,
            index_status: None,
            worktree_status: Some(FileStatus::Untracked),
        };
        let ghost before = status.untracked@;
        status.untracked.push(e);
        assert(entries_view(status.untracked@) =~= entries_view(before).push(e@));
    }
}

/// Whether `output` can be parsed: every line of kind `1` or `?` holds a
/// one-byte character after its kind.
pub fn porcelain_well_formed(output: &str) -> (r: bool)
    ensures
        r == porcelain_ok(output@),
{
    let text = chars_of(output);
    let spans = line_spans(text.as_slice());
    let mut i: usize = 0;
    while i < spans.len()
        invariant
            i <= spans@.len(),
            text@ == output@,
            spans_are(text@, spans@, lines(text@)),
            forall|k: int| 0 <= k < i ==> porcelain_line_ok(#[trigger] lines(text@)[k]),
        decreases spans.len() - i,
    {
        let (a, b) = spans[i];
        let line = slice_subrange(text.as_slice(), a, b);
        assert(line@ == lines(text@)[i as int]);
        if line.len() > 0 && (line[0] == '1' || line[0] == '?') {
            if !(line.len() >= 2 && (line[1] as u32) < 0x80) {
                assert(!porcelain_line_ok(lines(text@)[i as int]));
                return false;
            }
        }
        i = i + 1;
    }
    true
}

/// Parses `git status --porcelain=v2 --branch` output.
pub fn parse_porcelain_v2(output: &str) -> (status: RepoStatus)
    requires
        porcelain_ok(output@),
    ensures
        status@ == porcelain(lines(output@)),
{
    let text = chars_of(output);
    let spans = line_spans(text.as_slice());
    let mut status = RepoStatus::new();
    let mut i: usize = 0;
    while i < spans.len()
        invariant
            i <= spans@.len(),
            text@ == output@,
            porcelain_ok(output@),
            spans_are(text@, spans@, lines(text@)),
            status@ == porcelain(lines(text@).take(i as int)),
        decreases spans.len() - i,
    {
        let (a, b) = spans[i];
        let line = slice_subrange(text.as_slice(), a, b);
        assert(line@ == lines(text@)[i as int]);
        assert(porcelain_line_ok(lines(output@)[i as int]));
        apply_porcelain_line(&mut status, line);
        assert(lines(text@).take(i + 1).drop_last() =~= lines(text@).take(i as int));
        i = i + 1;
    }
    assert(lines(text@).take(spans@.len() as int) =~= lines(text@));
    status
}

/// `git status` as the client runs it: porcelain v2 with the branch
/// headers, every untracked file, no rename detection, submodules' own
/// changes ignored.
pub open spec fn status_args() -> Seq<Seq<char>> {
    seq![
        "status"@,
        "--porcelain=v2"@,
        "--branch"@,
        "-uall"@,
        "--no-renames"@,
        "--ignore-submodules=dirty"@,
    ]
}

/// The argument list that `status_args` describes.
pub fn status_command() -> (r: Vec<String>)
    ensures
        strings_view(r@) == status_args(),
{
    let mut r: Vec<String> = Vec::new();
    push_string(&mut r, "status");
    push_string(&mut r, "--porcelain=v2");
    push_string(&mut r, "--branch");
    push_string(&mut r, "-uall");
    push_string(&mut r, "--no-renames");
    push_string(&mut r, "--ignore-submodules=dirty");
    assert(strings_view(r@) =~= status_args());
    r
}

/// The status that `git status` reported, or its error; a failed run
/// reports no exit code.
pub fn status_from_output(out: Result<GitOutput, GitError>) -> (r: Result<RepoStatus, GitError>)
    requires
        out matches Ok(o) ==> porcelain_ok(o.stdout@),
    ensures
        match out {
            Ok(o) => r matches Ok(s) && s@ == porcelain(lines(o.stdout@)),
            Err(GitError::Failed { code: _, stderr }) => r matches Err(GitError::Failed {
                code: None,
                stderr: e,
            }) && e == stderr,
            Err(e) => r == Err::<RepoStatus, GitError>(e),
        },
{
    match out {
        Ok(o) => Ok(parse_porcelain_v2(o.stdout.as_str())),
        Err(GitError::Failed { code: _, stderr }) => Err(GitError::Failed { code: None, stderr }),
        Err(e) => Err(e),
    }
}

} // verus!

