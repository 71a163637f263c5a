//! Branches, stashes, history, and the command lines and outputs of the
//! git operations.

use crate::git::{may_be_absolute, relativizes, to_repo_relative, GitError, GitOutput};
use crate::text::{
    chars_of, decimal, has_prefix, is_ws, joined_with, lemma_rskip_ws, lemma_skip_ws,
    lemma_split_join, line_spans, lines, parse_bounded, parse_usize, parse_u32, rskip_ws, skip_ws,
    push_all, push_chars, push_decimal, push_str, push_string, replace_char, rstrip, rstrip_char,
    same_chars, spans_are, split, split_spans, starts_with, string_of, strings_view, strip_all, trim,
    trim_span, trim_start_matches, word_spans, words,
};
use vstd::prelude::*;
use vstd::slice::slice_subrange;

verus! {

/// A local or remote branch.
#[derive(Debug, Clone)]
pub struct Branch {
    pub name: String,
    pub current: bool,
    pub remote: bool,
    pub upstream: Option<String>,
    pub ahead: u32,
    pub behind: u32,
    pub last_commit: String,
    pub last_commit_subject: String,
}

/// One stash entry.
#[derive(Debug, Clone)]
pub struct StashEntry {
    pub index: usize,
    pub message: String,
    pub branch: String,
}

/// One commit of the history.
#[derive(Debug, Clone)]
pub struct CommitEntry {
    pub hash: String,
    pub short_hash: String,
    pub author: String,
    pub email: String,
    pub date: String,
    pub subject: String,
    pub body: String,
    pub parents: Vec<String>,
    pub refs: Vec<String>,
}

/// What the status bar shows.
#[derive(Debug, Clone)]
pub struct StatusBarInfo {
    pub branch: Option<String>,
    pub ahead: u32,
    pub behind: u32,
    pub staged_count: usize,
    pub unstaged_count: usize,
    pub untracked_count: usize,
    pub sync_state: String,
}


pub struct BranchModel {
    pub name: Seq<char>,
    pub current: bool,
    pub remote: bool,
    pub upstream: Option<Seq<char>>,
    pub ahead: int,
    pub behind: int,
    pub last_commit: Seq<char>,
    pub last_commit_subject: Seq<char>,
}

pub open spec fn opt_seq(o: Option<String>) -> Option<Seq<char>> {
    match o {
        Some(s) => Some(s@),
        None => None,
    }
}

impl View for Branch {
    type V = BranchModel;

    open spec fn view(&self) -> BranchModel {
        BranchModel {
            name: self.name@,
            current: self.current,
            remote: self.remote,
            upstream: opt_seq(self.upstream),
            ahead: self.ahead as int,
            behind: self.behind as int,
            last_commit: self.last_commit@,
            last_commit_subject: self.last_commit_subject@,
        }
    }
}

pub open spec fn branches_view(v: Seq<Branch>) -> Seq<BranchModel> {
    v.map_values(|b: Branch| b@)
}

pub struct StashModel {
    pub index: int,
    pub message: Seq<char>,
    pub branch: Seq<char>,
}

impl View for StashEntry {
    type V = StashModel;

    open spec fn view(&self) -> StashModel {
        StashModel { index: self.index as int, message: self.message@, branch: self.branch@ }
    }
}

pub open spec fn stashes_view(v: Seq<StashEntry>) -> Seq<StashModel> {
    v.map_values(|e: StashEntry| e@)
}

pub struct CommitModel {
    pub hash: Seq<char>,
    pub short_hash: Seq<char>,
    pub author: Seq<char>,
    pub email: Seq<char>,
    pub date: Seq<char>,
    pub subject: Seq<char>,
    pub body: Seq<char>,
    pub parents: Seq<Seq<char>>,
    pub refs: Seq<Seq<char>>,
}

impl View for CommitEntry {
    type V = CommitModel;

    open spec fn view(&self) -> CommitModel {
        CommitModel {
            hash: self.hash@,
            short_hash: self.short_hash@,
            author: self.author@,
            email: self.email@,
            date: self.date@,
            subject: self.subject@,
            body: self.body@,
            parents: strings_view(self.parents@),
            refs: strings_view(self.refs@),
        }
    }
}

pub open spec fn commits_view(v: Seq<CommitEntry>) -> Seq<CommitModel> {
    v.map_values(|e: CommitEntry| e@)
}

// ---------------------------------------------------------------------
// Branches
// ---------------------------------------------------------------------

/// The NUL-separated fields of a line.
pub open spec fn fields(l: Seq<char>) -> Seq<Seq<char>> {
    split(l, seq!['\0'])
}

/// A `for-each-ref` line `refname NUL short NUL upstream NUL hash NUL
/// subject`, as a branch (its counts not known yet).
pub open spec fn branch_of(f: Seq<Seq<char>>, current: Seq<char>) -> BranchModel {
    let remote = starts_with(f[0], "refs/remotes/"@);
    BranchModel {
        name: f[1],
        current: !remote && f[1] == current,
        remote,
        upstream: if f[2].len() == 0 {
            None
        } else {
            Some(f[2])
        },
        ahead: 0,
        behind: 0,
        last_commit: f[3],
        last_commit_subject: f[4],
    }
}

/// The branches of `for-each-ref` lines; lines with fewer than five
/// fields are skipped.
pub open spec fn branches_of(ls: Seq<Seq<char>>, current: Seq<char>) -> Seq<BranchModel>
    decreases ls.len(),
{
    if ls.len() == 0 {
        seq![]
    } else if fields(ls.last()).len() < 5 {
        branches_of(ls.drop_last(), current)
    } else {
        branches_of(ls.drop_last(), current).push(branch_of(fields(ls.last()), current))
    }
}

fn field<'a>(l: &'a [char], f: &Vec<(usize, usize)>, i: usize) -> (r: &'a [char])
    requires
        spans_are(l@, f@, fields(l@)),
        i < f@.len(),
    ensures
        r@ == fields(l@)[i as int],
{
    let (a, b) = f[i];
    slice_subrange(l, a, b)
}

/// The branches that `git for-each-ref` printed, `current` being the name
/// of the checked-out branch; counts are left at 0.
pub fn parse_branches(stdout: &str, current: &str) -> (r: Vec<Branch>)
    ensures
        branches_view(r@) == branches_of(lines(stdout@), current@),
{
    let t = chars_of(stdout);
    let spans = line_spans(t.as_slice());
    let ghost ls = lines(t@);
    let nul: Vec<char> = vec!['\0'];
    assert(nul@ =~= seq!['\0']);
    let remotes = chars_of("refs/remotes/");
    let cur = chars_of(current);
    let mut r: Vec<Branch> = Vec::new();
    let mut i: usize = 0;
    while i < spans.len()
        invariant
            i <= spans@.len(),
            ls == lines(t@),
            t@ == stdout@,
            nul@ == seq!['\0'],
            remotes@ == "refs/remotes/"@,
            cur@ == current@,
            spans_are(t@, spans@, ls),
            branches_view(r@) == branches_of(ls.take(i as int), current@),
        decreases spans.len() - i,
    {
        let (a, b) = spans[i];
        let l = slice_subrange(t.as_slice(), a, b);
        assert(l@ == ls[i as int]);
        assert(ls.take(i + 1).drop_last() =~= ls.take(i as int));
        assert(ls.take(i + 1).last() == ls[i as int]);
        let f = split_spans(l, nul.as_slice());
        if f.len() >= 5 {
            let full = field(l, &f, 0);
            let short = field(l, &f, 1);
            let up = field(l, &f, 2);
            let remote = has_prefix(full, remotes.as_slice());
            let upstream = if up.len() == 0 {
                None
            } else {
                Some(string_of(up))
            };
            let br = Branch {
                name: string_of(short),
                current: !remote && same_chars(short, cur.as_slice()),
                remote,
                upstream,
                ahead: 0,
                behind: 0,
                last_commit: string_of(field(l, &f, 3)),
                last_commit_subject: string_of(field(l, &f, 4)),
            };
            let ghost before = r@;
            r.push(br);
            assert(br@ == branch_of(fields(l@), current@));
            assert(branches_view(r@) =~= branches_view(before).push(br@));
        }
        i = i + 1;
    }
    assert(ls.take(spans@.len() as int) =~= ls);
    r
}

/// The trimmed output of a run, or empty where the run failed: the
/// checked-out branch of `git branch --show-current`, the commit of
/// `git rev-parse HEAD`.
pub fn trimmed_output(out: Option<&str>) -> (r: String)
    ensures
        r@ == match out {
            Some(o) => trim(o@),
            None => Seq::<char>::empty(),
        },
{
    match out {
        Some(o) => {
            let t = chars_of(o);
            let (a, b) = trim_span(t.as_slice());
            string_of(slice_subrange(t.as_slice(), a, b))
        },
        None => String::new(),
    }
}

/// The range whose left/right counts give a local branch's distance from
/// its upstream: `upstream...name`. Remote branches and branches without
/// upstream are not counted.
pub open spec fn count_range(b: BranchModel) -> Option<Seq<char>> {
    match b.upstream {
        Some(up) => if b.remote {
            None
        } else {
            Some(up + "..."@ + b.name)
        },
        None => None,
    }
}

/// `git rev-list --count --left-right <range>`.
pub open spec fn count_args(range: Seq<char>) -> Seq<Seq<char>> {
    seq!["rev-list"@, "--count"@, "--left-right"@, range]
}

/// The `rev-list` run that counts a branch's commits ahead and behind its
/// upstream, where it has an upstream and is local.
pub fn ahead_behind_command(b: &Branch) -> (r: Option<Vec<String>>)
    ensures
        match count_range(b@) {
            Some(range) => r matches Some(args) && strings_view(args@) == count_args(range),
            None => r is None,
        },
{
    match &b.upstream {
        Some(up) => {
            if b.remote {
                return None;
            }
            let mut range: Vec<char> = Vec::new();
            push_str(&mut range, up.as_str());
            push_str(&mut range, "...");
            push_str(&mut range, b.name.as_str());
            let mut args: Vec<String> = Vec::new();
            push_string(&mut args, "rev-list");
            push_string(&mut args, "--count");
            push_string(&mut args, "--left-right");
            push_chars(&mut args, range.as_slice());
            assert(strings_view(args@) =~= seq![
                "rev-list"@,
                "--count"@,
                "--left-right"@,
                up@ + "..."@ + b.name@,
            ]);
            Some(args)
        },
        None => None,
    }
}

/// `(ahead, behind)` from `rev-list --count --left-right` output: the
/// first number counts the upstream's commits, the second the branch's;
/// `(0, 0)` where the run failed or printed no two numbers.
pub open spec fn left_right(out: Option<Seq<char>>) -> (int, int) {
    match out {
        Some(o) => {
            let ws = words(o);
            if ws.len() >= 2 {
                match (parse_bounded(ws[0], u32::MAX as nat), parse_bounded(ws[1], u32::MAX as nat)) {
                    (Some(behind), Some(ahead)) => (ahead as int, behind as int),
                    _ => (0, 0),
                }
            } else {
                (0, 0)
            }
        },
        None => (0, 0),
    }
}

/// `(ahead, behind)` of a branch from its `rev-list` run.
pub fn parse_left_right(out: Option<&str>) -> (r: (u32, u32))
    ensures
        (r.0 as int, r.1 as int) == left_right(
            match out {
                Some(o) => Some(o@),
                None => None,
            },
        ),
{
    match out {
        Some(o) => {
            let t = chars_of(o);
            let ws = word_spans(t.as_slice());
            if ws.len() >= 2 {
                let (a0, b0) = ws[0];
                let (a1, b1) = ws[1];
                let behind = parse_u32(slice_subrange(t.as_slice(), a0, b0));
                let ahead = parse_u32(slice_subrange(t.as_slice(), a1, b1));
                match (behind, ahead) {
                    (Some(bh), Some(ah)) => (ah, bh),
                    _ => (0, 0),
                }
            } else {
                (0, 0)
            }
        },
        None => (0, 0),
    }
}

/// Character-wise lexicographic order (for UTF-8 text the same order as
/// that of the bytes).
pub open spec fn seq_lt(a: Seq<char>, b: Seq<char>) -> bool
    decreases a.len(),
{
    if b.len() == 0 {
        false
    } else if a.len() == 0 {
        true
    } else if a[0] != b[0] {
        (a[0] as u32) < (b[0] as u32)
    } else {
        seq_lt(a.drop_first(), b.drop_first())
    }
}

/// Whether `a` comes before `b` character-wise.
pub fn chars_lt(a: &[char], b: &[char]) -> (r: bool)
    ensures
        r == seq_lt(a@, b@),
{
    let mut i: usize = 0;
    assert(a@.skip(0) =~= a@);
    assert(b@.skip(0) =~= b@);
    while i < a.len() && i < b.len() && a[i] == b[i]
        invariant
            i <= a@.len(),
            i <= b@.len(),
            seq_lt(a@, b@) == seq_lt(a@.skip(i as int), b@.skip(i as int)),
        decreases a@.len() - i,
    {
        assert(a@.skip(i + 1) =~= a@.skip(i as int).drop_first());
        assert(b@.skip(i + 1) =~= b@.skip(i as int).drop_first());
        i = i + 1;
    }
    if i == b.len() {
        false
    } else if i == a.len() {
        true
    } else {
        (a[i] as u32) < (b[i] as u32)
    }
}

/// The order of the branch list: the checked-out branch first, then local
/// before remote branches, then by name.
pub open spec fn branch_before(a: BranchModel, b: BranchModel) -> bool {
    if a.current != b.current {
        a.current
    } else if a.remote != b.remote {
        !a.remote
    } else {
        seq_lt(a.name, b.name)
    }
}

/// Where a stable insertion puts `x` into `s`: before the first element
/// that `x` comes before.
pub open spec fn branch_slot(s: Seq<BranchModel>, x: BranchModel, i: int) -> int
    decreases s.len() - i,
{
    if i < 0 || i >= s.len() {
        s.len() as int
    } else if branch_before(x, s[i]) {
        i
    } else {
        branch_slot(s, x, i + 1)
    }
}

/// The branches in list order; branches that tie keep their order (a
/// stable sort).
pub open spec fn sorted_branches(s: Seq<BranchModel>) -> Seq<BranchModel>
    decreases s.len(),
{
    if s.len() == 0 {
        seq![]
    } else {
        let rest = sorted_branches(s.drop_last());
        rest.insert(branch_slot(rest, s.last(), 0), s.last())
    }
}

fn is_branch_before(a: &Branch, b: &Branch) -> (r: bool)
    ensures
        r == branch_before(a@, b@),
{
    if a.current != b.current {
        a.current
    } else if a.remote != b.remote {
        !a.remote
    } else {
        let x = chars_of(a.name.as_str());
        let y = chars_of(b.name.as_str());
        chars_lt(x.as_slice(), y.as_slice())
    }
}

pub proof fn lemma_seq_lt_irreflexive(a: Seq<char>)
    ensures
        !seq_lt(a, a),
    decreases a.len(),
{
    if a.len() > 0 {
        lemma_seq_lt_irreflexive(a.drop_first());
    }
}

pub proof fn lemma_seq_lt_transitive(a: Seq<char>, b: Seq<char>, c: Seq<char>)
    requires
        seq_lt(a, b),
        seq_lt(b, c),
    ensures
        seq_lt(a, c),
    decreases a.len(),
{
    if a.len() > 0 && a[0] == b[0] && b[0] == c[0] {
        lemma_seq_lt_transitive(a.drop_first(), b.drop_first(), c.drop_first());
    }
}

pub proof fn lemma_branch_before_order(a: BranchModel, b: BranchModel, c: BranchModel)
    ensures
        !branch_before(a, a),
        branch_before(a, b) && branch_before(b, c) ==> branch_before(a, c),
{
    lemma_seq_lt_irreflexive(a.name);
    if branch_before(a, b) && branch_before(b, c) && a.current == b.current && b.current
        == c.current && a.remote == b.remote && b.remote == c.remote {
        lemma_seq_lt_transitive(a.name, b.name, c.name);
    }
}

/// Where `x` goes: no element before the slot comes after `x`, and the
/// element at the slot (if any) does.
pub proof fn lemma_branch_slot(s: Seq<BranchModel>, x: BranchModel, i: int)
    requires
        0 <= i <= s.len(),
    ensures
        i <= branch_slot(s, x, i) <= s.len(),
        forall|k: int| i <= k < branch_slot(s, x, i) ==> !branch_before(x, #[trigger] s[k]),
        branch_slot(s, x, i) < s.len() ==> branch_before(x, s[branch_slot(s, x, i)]),
    decreases s.len() - i,
{
    if i < s.len() && !branch_before(x, s[i]) {
        lemma_branch_slot(s, x, i + 1);
    }
}

/// No branch of `s` comes before one that precedes it.
pub open spec fn branches_in_order(s: Seq<BranchModel>) -> bool {
    forall|i: int, j: int|
        0 <= i < j < s.len() ==> !branch_before(#[trigger] s[j], #[trigger] s[i])
}

pub proof fn lemma_branch_insert_in_order(s: Seq<BranchModel>, x: BranchModel)
    requires
        branches_in_order(s),
    ensures
        branches_in_order(s.insert(branch_slot(s, x, 0), x)),
{
    let p = branch_slot(s, x, 0);
    lemma_branch_slot(s, x, 0);
    let r = s.insert(p, x);
    assert forall|i: int, j: int| 0 <= i < j < r.len() implies !branch_before(
        #[trigger] r[j],
        #[trigger] r[i],
    ) by {
        if i == p {
            let y = s[j - 1];
            lemma_branch_before_order(y, x, s[p]);
            lemma_branch_before_order(s[p], x, s[p]);
            if j - 1 > p {
                assert(!branch_before(s[j - 1], s[p]));
            }
        } else if j == p {
            assert(r[i] == s[i]);
        } else if j < p {
            assert(r[i] == s[i] && r[j] == s[j]);
        } else if i < p {
            assert(r[i] == s[i] && r[j] == s[j - 1]);
        } else {
            assert(r[i] == s[i - 1] && r[j] == s[j - 1]);
        }
    }
}

/// The branch list comes in list order (the checked-out branch first,
/// local before remote branches, then by name) and holds exactly the
/// branches that were listed, each as often as it was.
pub proof fn law_branch_list_in_order(s: Seq<BranchModel>)
    ensures
        branches_in_order(sorted_branches(s)),
        sorted_branches(s).to_multiset() == s.to_multiset(),
    decreases s.len(),
{
    broadcast use vstd::seq_lib::to_multiset_insert, vstd::seq_lib::to_multiset_build;

    if s.len() == 0 {
        assert(sorted_branches(s) =~= s);
    } else {
        law_branch_list_in_order(s.drop_last());
        let rest = sorted_branches(s.drop_last());
        lemma_branch_slot(rest, s.last(), 0);
        lemma_branch_insert_in_order(rest, s.last());
        assert(s.drop_last().push(s.last()) =~= s);
    }
}

/// Sorts branches into list order (stable).
pub fn sort_branches(v: Vec<Branch>) -> (r: Vec<Branch>)
    ensures
        branches_view(r@) == sorted_branches(branches_view(v@)),
{
    let ghost bv = branches_view(v@);
    let n = v.len();
    let mut rest = v;
    let mut r: Vec<Branch> = Vec::new();
    let mut i: usize = 0;
    while i < n
        invariant
            i <= n == bv.len(),
            branches_view(rest@) == bv.skip(i as int),
            branches_view(r@) == sorted_branches(bv.take(i as int)),
        decreases n - i,
    {
        let ghost old_rest = rest@;
        assert(branches_view(old_rest).len() > 0);
        assert(branches_view(old_rest)[0] == old_rest[0]@);
        assert(bv.skip(i as int)[0] == bv[i as int]);
        let x = rest.remove(0);
        assert(x@ == bv[i as int]);
        assert(rest@ =~= old_rest.remove(0));
        assert forall|k: int| 0 <= k < rest@.len() implies branches_view(rest@)[k] == bv.skip(
            i + 1,
        )[k] by {
            assert(rest@[k] == old_rest[k + 1]);
            assert(branches_view(old_rest)[k + 1] == old_rest[k + 1]@);
            assert(bv.skip(i as int)[k + 1] == bv[i + 1 + k]);
        }
        assert(branches_view(rest@) =~= bv.skip(i + 1));
        let mut p: usize = 0;
        while p < r.len() && !is_branch_before(&x, &r[p])
            invariant
                p <= r@.len(),
                branch_slot(branches_view(r@), x@, 0) == branch_slot(branches_view(r@), x@, p as int),
            decreases r@.len() - p,
        {
            p = p + 1;
        }
        let ghost before = r@;
        assert(bv.take(i + 1).drop_last() =~= bv.take(i as int));
        assert(bv.take(i + 1).last() == x@);
        r.insert(p, x);
        assert(branches_view(r@) =~= branches_view(before).insert(p as int, x@));
        i = i + 1;
    }
    assert(bv.take(n as int) =~= bv);
    r
}


// ---------------------------------------------------------------------
// Stashes
// ---------------------------------------------------------------------

/// The number of a stash reference `stash@{N}`: `N` read as `usize`, or 0.
pub open spec fn stash_index(f0: Seq<char>) -> int {
    let a = trim_start_matches(f0, "stash@{"@);
    let b = a.subrange(0, rstrip_char(a, '}', a.len() as int));
    match parse_bounded(b, usize::MAX as nat) {
        Some(v) => v as int,
        None => 0,
    }
}

/// A `stash list --format=%gd%x00%gs%x00%D` line as a stash entry; the
/// branch is the trimmed text before the first `:` of the message.
pub open spec fn stash_of(f: Seq<Seq<char>>) -> StashModel {
    StashModel {
        index: stash_index(f[0]),
        message: f[1],
        branch: trim(split(f[1], seq![':'])[0]),
    }
}

/// The stash entries of `stash list` lines; lines with fewer than two
/// fields are skipped.
pub open spec fn stashes_of(ls: Seq<Seq<char>>) -> Seq<StashModel>
    decreases ls.len(),
{
    if ls.len() == 0 {
        seq![]
    } else if fields(ls.last()).len() < 2 {
        stashes_of(ls.drop_last())
    } else {
        stashes_of(ls.drop_last()).push(stash_of(fields(ls.last())))
    }
}

pub proof fn lemma_split_nonempty(s: Seq<char>, p: Seq<char>)
    ensures
        split(s, p).len() >= 1,
{
    crate::text::lemma_find_from(s, p, 0);
}

/// The stash entries that `git stash list` printed.
pub fn parse_stash_list(stdout: &str) -> (r: Vec<StashEntry>)
    ensures
        stashes_view(r@) == stashes_of(lines(stdout@)),
{
    let t = chars_of(stdout);
    let spans = line_spans(t.as_slice());
    let ghost ls = lines(t@);
    let nul: Vec<char> = vec!['\0'];
    assert(nul@ =~= seq!['\0']);
    let colon: Vec<char> = vec![':'];
    assert(colon@ =~= seq![':']);
    let open = chars_of("stash@{");
    proof {
        reveal_strlit("stash@{");
    }
    let mut r: Vec<StashEntry> = Vec::new();
    let mut i: usize = 0;
    while i < spans.len()
        invariant
            i <= spans@.len(),
            ls == lines(t@),
            t@ == stdout@,
            nul@ == seq!['\0'],
            colon@ == seq![':'],
            open@ == "stash@{"@,
            open@.len() > 0,
            spans_are(t@, spans@, ls),
            stashes_view(r@) == stashes_of(ls.take(i as int)),
        decreases spans.len() - i,
    {
        let (a, b) = spans[i];
        let l = slice_subrange(t.as_slice(), a, b);
        assert(l@ == ls[i as int]);
        assert(ls.take(i + 1).drop_last() =~= ls.take(i as int));
        assert(ls.take(i + 1).last() == ls[i as int]);
        let f = split_spans(l, nul.as_slice());
        if f.len() >= 2 {
            let f0 = field(l, &f, 0);
            let k = strip_all(f0, open.as_slice());
            let a0 = slice_subrange(f0, k, f0.len());
            let e = rstrip(a0, '}');
            let num = slice_subrange(a0, 0, e);
            let index: usize = match parse_usize(num) {
                Some(v) => v,
                None => 0,
            };
            let msg = field(l, &f, 1);
            let parts = split_spans(msg, colon.as_slice());
            proof {
                lemma_split_nonempty(msg@, seq![':']);
            }
            let (p0, p1) = parts[0];
            let first = slice_subrange(msg, p0, p1);
            let (ta, tb) = trim_span(first);
            let entry = StashEntry {
                index,
                message: string_of(msg),
                branch: string_of(slice_subrange(first, ta, tb)),
            };
            let ghost before = r@;
            r.push(entry);
            assert(entry@ == stash_of(fields(l@)));
            assert(stashes_view(r@) =~= stashes_view(before).push(entry@));
        }
        i = i + 1;
    }
    assert(ls.take(spans@.len() as int) =~= ls);
    r
}

// ---------------------------------------------------------------------
// History
// ---------------------------------------------------------------------

/// The non-empty pieces.
pub open spec fn non_empty(ps: Seq<Seq<char>>) -> Seq<Seq<char>>
    decreases ps.len(),
{
    if ps.len() == 0 {
        seq![]
    } else if ps.last().len() == 0 {
        non_empty(ps.drop_last())
    } else {
        non_empty(ps.drop_last()).push(ps.last())
    }
}

/// A log line of nine NUL-separated fields as a commit: the body trimmed,
/// the parents split at whitespace, the refs split at `", "`.
pub open spec fn commit_of(f: Seq<Seq<char>>) -> CommitModel {
    CommitModel {
        hash: f[0],
        short_hash: f[1],
        author: f[2],
        email: f[3],
        date: f[4],
        subject: f[5],
        body: trim(f[6]),
        parents: words(f[7]),
        refs: non_empty(split(f[8], ", "@)),
    }
}

/// The commits of log lines; blank lines and lines with fewer than nine
/// fields are skipped.
pub open spec fn commits_of(ls: Seq<Seq<char>>) -> Seq<CommitModel>
    decreases ls.len(),
{
    if ls.len() == 0 {
        seq![]
    } else if trim(ls.last()).len() == 0 || fields(ls.last()).len() < 9 {
        commits_of(ls.drop_last())
    } else {
        commits_of(ls.drop_last()).push(commit_of(fields(ls.last())))
    }
}

/// The NUL-separated fields that git writes for a branch, a stash or a
/// commit read back as themselves, as long as none holds a NUL.
pub proof fn law_fields_read_back(fs: Seq<Seq<char>>)
    requires
        fs.len() >= 1,
        forall|i: int| 0 <= i < fs.len() ==> !(#[trigger] fs[i]).contains('\0'),
    ensures
        fields(joined_with(fs, '\0')) == fs,
{
    lemma_split_join(fs, '\0');
}

/// A field that holds no NUL and no line break.
pub open spec fn plain_field(f: Seq<char>) -> bool {
    !f.contains('\0') && !f.contains('\n')
}

/// A line of NUL-separated fields, none holding a NUL or a line break and
/// the last not ending in `'\r'`, followed by a line break, reads back as
/// that one line, split into those fields.
pub proof fn lemma_fields_line(fs: Seq<Seq<char>>)
    requires
        fs.len() >= 2,
        forall|i: int|
            0 <= i < fs.len() ==> !(#[trigger] fs[i]).contains('\0') && !fs[i].contains('\n'),
        fs.last().len() == 0 || fs.last().last() != '\r',
    ensures
        lines(joined_with(fs, '\0') + seq!['\n']) == seq![joined_with(fs, '\0')],
        fields(joined_with(fs, '\0')) == fs,
{
    let l = joined_with(fs, '\0');
    law_fields_read_back(fs);
    crate::text::lemma_joined_avoids(fs, '\0', '\n');
    crate::text::lemma_joined_last(fs, '\0');
    assert(l + seq!['\n'] =~= l + seq!['\n'] + Seq::<char>::empty());
    crate::text::lemma_lines_cons(l, Seq::<char>::empty());
    assert(lines(Seq::<char>::empty()) =~= Seq::<Seq<char>>::empty());
    assert(crate::text::strip_cr(l) == l);
    assert(lines(l + seq!['\n']) =~= seq![l]);
}

/// The line that `git for-each-ref` writes for a branch reads back as that
/// branch: its short name, whether it is remote (its ref lies under
/// `refs/remotes/`), whether it is the checked-out one (a local branch
/// named `current`), its upstream (none where empty), its commit and
/// subject; its counts are left at 0. Fields holding a NUL or a line
/// break, and a subject ending in `'\r'`, are left out.
pub proof fn law_branch_line_reads_back(
    refname: Seq<char>,
    short: Seq<char>,
    upstream: Seq<char>,
    hash: Seq<char>,
    subject: Seq<char>,
    current: Seq<char>,
)
    requires
        plain_field(refname),
        plain_field(short),
        plain_field(upstream),
        plain_field(hash),
        plain_field(subject),
        subject.len() == 0 || subject.last() != '\r',
    ensures
        branches_of(
            lines(joined_with(seq![refname, short, upstream, hash, subject], '\0') + seq!['\n']),
            current,
        ) == seq![
            BranchModel {
                name: short,
                current: !starts_with(refname, "refs/remotes/"@) && short == current,
                remote: starts_with(refname, "refs/remotes/"@),
                upstream: if upstream.len() == 0 {
                    None
                } else {
                    Some(upstream)
                },
                ahead: 0,
                behind: 0,
                last_commit: hash,
                last_commit_subject: subject,
            },
        ],
{
    let fs = seq![refname, short, upstream, hash, subject];
    assert forall|i: int| 0 <= i < fs.len() implies !(#[trigger] fs[i]).contains('\0') && !fs[i].contains(
        '\n',
    ) by {
        assert(plain_field(fs[i]));
    }
    lemma_fields_line(fs);
    let l = joined_with(fs, '\0');
    let one = seq![l];
    assert(one.drop_last() =~= Seq::<Seq<char>>::empty());
    assert(one.last() == l);
    assert(branches_of(one.drop_last(), current) == Seq::<BranchModel>::empty());
    assert(branches_of(one, current) =~= seq![branch_of(fs, current)]);
}

/// The line that `git stash list` writes for stash `n` reads back as that
/// stash: its index, its message, and as its branch the text of the
/// message before its first `:`, trimmed. Fields holding a NUL or a line
/// break, and refs ending in `'\r'`, are left out.
pub proof fn law_stash_line_reads_back(n: usize, message: Seq<char>, refs: Seq<char>)
    requires
        plain_field(message),
        plain_field(refs),
        refs.len() == 0 || refs.last() != '\r',
    ensures
        stashes_of(
            lines(joined_with(seq![stash_args("pop"@, n as nat)[2], message, refs], '\0') + seq!['\n']),
        ) == seq![
            StashModel { index: n as int, message, branch: trim(split(message, seq![':'])[0]) },
        ],
{
    reveal_strlit("stash@{");
    reveal_strlit("}");
    let r = stash_args("pop"@, n as nat)[2];
    assert(r == "stash@{"@ + decimal(n as nat) + "}"@);
    crate::text::lemma_decimal_reads_back(n as nat);
    assert(plain_field(r)) by {
        if r.contains('\0') || r.contains('\n') {
            let j = choose|j: int| 0 <= j < r.len() && (r[j] == '\0' || r[j] == '\n');
            let d = decimal(n as nat);
            if 7 <= j < 7 + d.len() {
                assert(r[j] == d[j - 7]);
                assert(crate::text::is_digit(d[j - 7]));
            }
        }
    }
    let fs = seq![r, message, refs];
    assert forall|i: int| 0 <= i < fs.len() implies !(#[trigger] fs[i]).contains('\0') && !fs[i].contains(
        '\n',
    ) by {
        assert(plain_field(fs[i]));
    }
    lemma_fields_line(fs);
    law_stash_reference_reads_back("pop"@, n);
    let l = joined_with(fs, '\0');
    let one = seq![l];
    assert(one.drop_last() =~= Seq::<Seq<char>>::empty());
    assert(one.last() == l);
    assert(stashes_of(one.drop_last()) == Seq::<StashModel>::empty());
    assert(stashes_of(one) =~= seq![stash_of(fs)]);
}

/// The history line that git writes for a commit, nine fields separated by
/// NUL with none of them holding a NUL, reads back as the commit of those
/// fields.
pub proof fn law_log_line_reads_back(fs: Seq<Seq<char>>)
    requires
        fs.len() == 9,
        forall|i: int| 0 <= i < fs.len() ==> !(#[trigger] fs[i]).contains('\0'),
    ensures
        commits_of(seq![joined_with(fs, '\0')]) == seq![commit_of(fs)],
{
    let l = joined_with(fs, '\0');
    law_fields_read_back(fs);
    let k = fs[0].len() as int;
    assert(l =~= fs[0] + seq!['\0'] + joined_with(fs.drop_first(), '\0'));
    assert(l[k] == '\0');
    assert(!is_ws(l[k]));
    lemma_skip_ws(l, 0);
    lemma_rskip_ws(l, l.len() as int);
    assert(skip_ws(l, 0) <= k);
    assert(rskip_ws(l, l.len() as int) > k);
    assert(trim(l).len() > 0);
    let one = seq![l];
    assert(one.drop_last() =~= Seq::<Seq<char>>::empty());
    assert(one.last() == l);
    assert(fields(l).len() == 9);
    assert(commits_of(one.drop_last()) == Seq::<CommitModel>::empty());
    assert(commits_of(one) =~= seq![commit_of(fs)]);
}

fn strings_of_spans(t: &[char], spans: &Vec<(usize, usize)>, Ghost(ps): Ghost<Seq<Seq<char>>>) -> (r:
    Vec<String>)
    requires
        spans_are(t@, spans@, ps),
    ensures
        strings_view(r@) == ps,
{
    let mut r: Vec<String> = Vec::new();
    let mut i: usize = 0;
    while i < spans.len()
        invariant
            i <= spans@.len(),
            spans_are(t@, spans@, ps),
            strings_view(r@) == ps.take(i as int),
        decreases spans.len() - i,
    {
        let (a, b) = spans[i];
        push_chars(&mut r, slice_subrange(t, a, b));
        assert(ps.take(i + 1) =~= ps.take(i as int).push(ps[i as int]));
        i = i + 1;
    }
    assert(ps.take(spans@.len() as int) =~= ps);
    r
}

fn non_empty_strings(t: &[char], spans: &Vec<(usize, usize)>, Ghost(ps): Ghost<Seq<Seq<char>>>) -> (r:
    Vec<String>)
    requires
        spans_are(t@, spans@, ps),
    ensures
        strings_view(r@) == non_empty(ps),
{
    let mut r: Vec<String> = Vec::new();
    let mut i: usize = 0;
    while i < spans.len()
        invariant
            i <= spans@.len(),
            spans_are(t@, spans@, ps),
            strings_view(r@) == non_empty(ps.take(i as int)),
        decreases spans.len() - i,
    {
        let (a, b) = spans[i];
        assert(ps.take(i + 1).drop_last() =~= ps.take(i as int));
        assert(ps.take(i + 1).last() == ps[i as int]);
        if a < b {
            push_chars(&mut r, slice_subrange(t, a, b));
        }
        i = i + 1;
    }
    assert(ps.take(spans@.len() as int) =~= ps);
    r
}

/// The commits that `git log` printed with its NUL-separated format.
pub fn parse_log(stdout: &str) -> (r: Vec<CommitEntry>)
    ensures
        commits_view(r@) == commits_of(lines(stdout@)),
{
    let t = chars_of(stdout);
    let spans = line_spans(t.as_slice());
    let ghost ls = lines(t@);
    let nul: Vec<char> = vec!['\0'];
    assert(nul@ =~= seq!['\0']);
    let refsep = chars_of(", ");
    proof {
        reveal_strlit(", ");
    }
    let mut r: Vec<CommitEntry> = Vec::new();
    let mut i: usize = 0;
    while i < spans.len()
        invariant
            i <= spans@.len(),
            ls == lines(t@),
            t@ == stdout@,
            nul@ == seq!['\0'],
            refsep@ == ", "@,
            refsep@.len() > 0,
            spans_are(t@, spans@, ls),
            commits_view(r@) == commits_of(ls.take(i as int)),
        decreases spans.len() - i,
    {
        let (a, b) = spans[i];
        let l = slice_subrange(t.as_slice(), a, b);
        assert(l@ == ls[i as int]);
        assert(ls.take(i + 1).drop_last() =~= ls.take(i as int));
        assert(ls.take(i + 1).last() == ls[i as int]);
        let (ta, tb) = trim_span(l);
        if ta < tb {
            let f = split_spans(l, nul.as_slice());
            if f.len() >= 9 {
                let body = field(l, &f, 6);
                let (ba, bb) = trim_span(body);
                let par = field(l, &f, 7);
                let pw = word_spans(par);
                let rf = field(l, &f, 8);
                let rs = split_spans(rf, refsep.as_slice());
                let entry = CommitEntry {
                    hash: string_of(field(l, &f, 0)),
                    short_hash: string_of(field(l, &f, 1)),
                    author: string_of(field(l, &f, 2)),
                    email: string_of(field(l, &f, 3)),
                    date: string_of(field(l, &f, 4)),
                    subject: string_of(field(l, &f, 5)),
                    body: string_of(slice_subrange(body, ba, bb)),
                    parents: strings_of_spans(par, &pw, Ghost(words(par@))),
                    refs: non_empty_strings(rf, &rs, Ghost(split(rf@, ", "@))),
                };
                let ghost before = r@;
                r.push(entry);
                assert(entry@ == commit_of(fields(l@)));
                assert(commits_view(r@) =~= commits_view(before).push(entry@));
            }
        }
        i = i + 1;
    }
    assert(ls.take(spans@.len() as int) =~= ls);
    r
}

/// The lines that hold more than whitespace.
pub open spec fn non_blank(ls: Seq<Seq<char>>) -> Seq<Seq<char>>
    decreases ls.len(),
{
    if ls.len() == 0 {
        seq![]
    } else if trim(ls.last()).len() == 0 {
        non_blank(ls.drop_last())
    } else {
        non_blank(ls.drop_last()).push(ls.last())
    }
}

/// The files that `git diff-tree --name-only` printed: its non-blank
/// lines.
pub fn parse_commit_files(stdout: &str) -> (r: Vec<String>)
    ensures
        strings_view(r@) == non_blank(lines(stdout@)),
{
    let t = chars_of(stdout);
    let spans = line_spans(t.as_slice());
    let ghost ls = lines(t@);
    let mut r: Vec<String> = Vec::new();
    let mut i: usize = 0;
    while i < spans.len()
        invariant
            i <= spans@.len(),
            ls == lines(t@),
            t@ == stdout@,
            spans_are(t@, spans@, ls),
            strings_view(r@) == non_blank(ls.take(i as int)),
        decreases spans.len() - i,
    {
        let (a, b) = spans[i];
        let l = slice_subrange(t.as_slice(), a, b);
        assert(l@ == ls[i as int]);
        assert(ls.take(i + 1).drop_last() =~= ls.take(i as int));
        assert(ls.take(i + 1).last() == ls[i as int]);
        let (ta, tb) = trim_span(l);
        if ta < tb {
            push_chars(&mut r, l);
        }
        i = i + 1;
    }
    assert(ls.take(spans@.len() as int) =~= ls);
    r
}


// ---------------------------------------------------------------------
// Command lines
// ---------------------------------------------------------------------

/// `prefix` followed by each path made relative to the repository, in
/// order: a path that no platform takes as absolute is passed as it is,
/// with `/` separators.
pub open spec fn with_paths(
    r: Seq<Seq<char>>,
    prefix: Seq<Seq<char>>,
    repo: Seq<char>,
    paths: Seq<Seq<char>>,
) -> bool {
    &&& r.len() == prefix.len() + paths.len()
    &&& r.subrange(0, prefix.len() as int) == prefix
    &&& forall|i: int|
        0 <= i < paths.len() ==> {
            &&& relativizes(#[trigger] r[prefix.len() + i], repo, paths[i])
            &&& !may_be_absolute(paths[i]) ==> r[prefix.len() + i] == replace_char(
                paths[i],
                '\\',
                '/',
            )
        }
}

fn push_paths(r: &mut Vec<String>, repo: &str, paths: &[String])
    ensures
        with_paths(strings_view(final(r)@), strings_view(old(r)@), repo@, strings_view(paths@)),
{
    let ghost pre = strings_view(r@);
    let ghost pv = strings_view(paths@);
    let mut i: usize = 0;
    assert(pre.subrange(0, pre.len() as int) =~= pre);
    while i < paths.len()
        invariant
            i <= paths@.len(),
            pv == strings_view(paths@),
            with_paths(strings_view(r@), pre, repo@, pv.take(i as int)),
        decreases paths.len() - i,
    {
        let rel = to_repo_relative(repo, paths[i].as_str());
        let ghost before = strings_view(r@);
        r.push(rel);
        proof {
            assert(strings_view(r@) =~= before.push(rel@));
            let now = strings_view(r@);
            let pt = pv.take(i + 1);
            assert(now.subrange(0, pre.len() as int) =~= before.subrange(0, pre.len() as int));
            assert forall|k: int| 0 <= k < pt.len() implies relativizes(
                #[trigger] now[pre.len() + k],
                repo@,
                pt[k],
            ) by {
                if k < i {
                    assert(pt[k] == pv.take(i as int)[k]);
                    assert(now[pre.len() + k] == before[pre.len() + k]);
                } else {
                    assert(pt[k] == paths@[k]@);
                    assert(now[pre.len() + k] == rel@);
                }
            }
            assert(now.len() == pre.len() + pt.len());
            assert(now.subrange(0, pre.len() as int) == pre);
            assert(with_paths(now, pre, repo@, pt));
        }
        i = i + 1;
    }
    assert(pv.take(paths@.len() as int) =~= pv);
}

/// `git add -- <paths>`.
pub fn stage_command(repo: &str, paths: &[String]) -> (r: Vec<String>)
    ensures
        with_paths(strings_view(r@), seq!["add"@, "--"@], repo@, strings_view(paths@)),
{
    let mut r: Vec<String> = Vec::new();
    push_string(&mut r, "add");
    push_string(&mut r, "--");
    assert(strings_view(r@) =~= seq!["add"@, "--"@]);
    push_paths(&mut r, repo, paths);
    r
}

/// `git reset HEAD -- <paths>`.
pub fn unstage_command(repo: &str, paths: &[String]) -> (r: Vec<String>)
    ensures
        with_paths(strings_view(r@), seq!["reset"@, "HEAD"@, "--"@], repo@, strings_view(paths@)),
{
    let mut r: Vec<String> = Vec::new();
    push_string(&mut r, "reset");
    push_string(&mut r, "HEAD");
    push_string(&mut r, "--");
    assert(strings_view(r@) =~= seq!["reset"@, "HEAD"@, "--"@]);
    push_paths(&mut r, repo, paths);
    r
}

/// `git checkout -- <paths>`: restores the tracked files.
pub fn discard_command(repo: &str, paths: &[String]) -> (r: Vec<String>)
    ensures
        with_paths(strings_view(r@), seq!["checkout"@, "--"@], repo@, strings_view(paths@)),
{
    let mut r: Vec<String> = Vec::new();
    push_string(&mut r, "checkout");
    push_string(&mut r, "--");
    assert(strings_view(r@) =~= seq!["checkout"@, "--"@]);
    push_paths(&mut r, repo, paths);
    r
}

/// `git clean -f -- <paths>`: deletes the untracked files.
pub fn clean_command(repo: &str, paths: &[String]) -> (r: Vec<String>)
    ensures
        with_paths(strings_view(r@), seq!["clean"@, "-f"@, "--"@], repo@, strings_view(paths@)),
{
    let mut r: Vec<String> = Vec::new();
    push_string(&mut r, "clean");
    push_string(&mut r, "-f");
    push_string(&mut r, "--");
    assert(strings_view(r@) =~= seq!["clean"@, "-f"@, "--"@]);
    push_paths(&mut r, repo, paths);
    r
}

/// `git add -A`: stages every change.
pub open spec fn stage_all_args() -> Seq<Seq<char>> {
    seq!["add"@, "-A"@]
}

/// The argument list that `stage_all_args` describes.
pub fn stage_all_command() -> (r: Vec<String>)
    ensures
        strings_view(r@) == stage_all_args(),
{
    let mut r: Vec<String> = Vec::new();
    push_string(&mut r, "add");
    push_string(&mut r, "-A");
    assert(strings_view(r@) =~= stage_all_args());
    r
}

/// `git reset HEAD`: unstages everything.
pub open spec fn unstage_all_args() -> Seq<Seq<char>> {
    seq!["reset"@, "HEAD"@]
}

/// The argument list that `unstage_all_args` describes.
pub fn unstage_all_command() -> (r: Vec<String>)
    ensures
        strings_view(r@) == unstage_all_args(),
{
    let mut r: Vec<String> = Vec::new();
    push_string(&mut r, "reset");
    push_string(&mut r, "HEAD");
    assert(strings_view(r@) =~= unstage_all_args());
    r
}

/// `git pull --ff-only`.
pub open spec fn pull_args() -> Seq<Seq<char>> {
    seq!["pull"@, "--ff-only"@]
}

/// The argument list that `pull_args` describes.
pub fn pull_command() -> (r: Vec<String>)
    ensures
        strings_view(r@) == pull_args(),
{
    let mut r: Vec<String> = Vec::new();
    push_string(&mut r, "pull");
    push_string(&mut r, "--ff-only");
    assert(strings_view(r@) =~= pull_args());
    r
}

/// `git rev-parse HEAD`: the commit checked out.
pub open spec fn head_args() -> Seq<Seq<char>> {
    seq!["rev-parse"@, "HEAD"@]
}

/// The argument list that `head_args` describes.
pub fn head_command() -> (r: Vec<String>)
    ensures
        strings_view(r@) == head_args(),
{
    let mut r: Vec<String> = Vec::new();
    push_string(&mut r, "rev-parse");
    push_string(&mut r, "HEAD");
    assert(strings_view(r@) =~= head_args());
    r
}

/// `git branch --show-current`: the branch checked out.
pub open spec fn current_branch_args() -> Seq<Seq<char>> {
    seq!["branch"@, "--show-current"@]
}

/// The argument list that `current_branch_args` describes.
pub fn current_branch_command() -> (r: Vec<String>)
    ensures
        strings_view(r@) == current_branch_args(),
{
    let mut r: Vec<String> = Vec::new();
    push_string(&mut r, "branch");
    push_string(&mut r, "--show-current");
    assert(strings_view(r@) =~= current_branch_args());
    r
}

/// `git for-each-ref` over local and remote branches, one line each:
/// ref name, short name, upstream, commit and subject, NUL-separated.
pub open spec fn branch_list_args() -> Seq<Seq<char>> {
    seq!["for-each-ref"@, "--format=%(refname)%00%(refname:short)%00%(upstream:short)%00%(objectname:short)%00%(subject)"@, "refs/heads"@, "refs/remotes"@]
}

/// The argument list that `branch_list_args` describes.
pub fn branch_list_command() -> (r: Vec<String>)
    ensures
        strings_view(r@) == branch_list_args(),
{
    let mut r: Vec<String> = Vec::new();
    push_string(&mut r, "for-each-ref");
    push_string(&mut r, "--format=%(refname)%00%(refname:short)%00%(upstream:short)%00%(objectname:short)%00%(subject)");
    push_string(&mut r, "refs/heads");
    push_string(&mut r, "refs/remotes");
    assert(strings_view(r@) =~= branch_list_args());
    r
}

/// `git stash list`, one line per stash: its reference, its message and
/// its refs, NUL-separated.
pub open spec fn stash_list_args() -> Seq<Seq<char>> {
    seq!["stash"@, "list"@, "--format=%gd%x00%gs%x00%D"@]
}

/// The argument list that `stash_list_args` describes.
pub fn stash_list_command() -> (r: Vec<String>)
    ensures
        strings_view(r@) == stash_list_args(),
{
    let mut r: Vec<String> = Vec::new();
    push_string(&mut r, "stash");
    push_string(&mut r, "list");
    push_string(&mut r, "--format=%gd%x00%gs%x00%D");
    assert(strings_view(r@) =~= stash_list_args());
    r
}

/// `git checkout <name>`.
pub open spec fn checkout_args(name: Seq<char>) -> Seq<Seq<char>> {
    seq!["checkout"@, name]
}

/// The argument list that `checkout_args` describes.
pub fn checkout_command(name: &str) -> (r: Vec<String>)
    ensures
        strings_view(r@) == checkout_args(name@),
{
    let mut r: Vec<String> = Vec::new();
    push_string(&mut r, "checkout");
    push_string(&mut r, name);
    assert(strings_view(r@) =~= checkout_args(name@));
    r
}

/// `git commit -m <message>`, with `--amend` to amend.
pub open spec fn commit_args(message: Seq<char>, amend: bool) -> Seq<Seq<char>> {
    seq!["commit"@, "-m"@, message] + (if amend {
        seq!["--amend"@]
    } else {
        seq![]
    })
}

/// The argument list that `commit_args` describes.
pub fn commit_command(message: &str, amend: bool) -> (r: Vec<String>)
    ensures
        strings_view(r@) == commit_args(message@, amend),
{
    let mut r: Vec<String> = Vec::new();
    push_string(&mut r, "commit");
    push_string(&mut r, "-m");
    push_string(&mut r, message);
    if amend {
        push_string(&mut r, "--amend");
    }
    assert(strings_view(r@) =~= seq!["commit"@, "-m"@, message@] + (if amend {
        seq!["--amend"@]
    } else {
        seq![]
    }));
    r
}

/// `git fetch --prune`, of `remote` where one is named.
pub open spec fn fetch_args(remote: Option<Seq<char>>) -> Seq<Seq<char>> {
    seq!["fetch"@, "--prune"@] + match remote {
        Some(x) => seq![x],
        None => seq![],
    }
}

/// The argument list that `fetch_args` describes.
pub fn fetch_command(remote: Option<&str>) -> (r: Vec<String>)
    ensures
        strings_view(r@) == fetch_args(
            match remote {
                Some(x) => Some(x@),
                None => None,
            },
        ),
{
    let mut r: Vec<String> = Vec::new();
    push_string(&mut r, "fetch");
    push_string(&mut r, "--prune");
    match remote {
        Some(x) => {
            push_string(&mut r, x);
        },
        None => {},
    }
    assert(strings_view(r@) =~= seq!["fetch"@, "--prune"@] + match remote {
        Some(x) => seq![x@],
        None => seq![],
    });
    r
}

/// `git push -u origin <branch>` to set the upstream, else `git push`.
pub open spec fn push_args(set_upstream: bool, branch: Seq<char>) -> Seq<Seq<char>> {
    if set_upstream {
        seq!["push"@, "-u"@, "origin"@, branch]
    } else {
        seq!["push"@]
    }
}

/// The argument list that `push_args` describes.
pub fn push_command(set_upstream: bool, branch: &str) -> (r: Vec<String>)
    ensures
        strings_view(r@) == push_args(set_upstream, branch@),
{
    let mut r: Vec<String> = Vec::new();
    push_string(&mut r, "push");
    if set_upstream {
        push_string(&mut r, "-u");
        push_string(&mut r, "origin");
        push_string(&mut r, branch);
    }
    assert(strings_view(r@) =~= if set_upstream {
        seq!["push"@, "-u"@, "origin"@, branch@]
    } else {
        seq!["push"@]
    });
    r
}

/// What a fetch reports: its trimmed error output (where git writes its
/// progress).
pub fn fetch_result(out: &GitOutput) -> (r: String)
    ensures
        r@ == trim(out.stderr@),
{
    trimmed_output(Some(out.stderr.as_str()))
}

/// Two outputs one after the other (`pull`, `push`: output and error
/// output; `sync`: the outputs of its pull and its push).
pub fn joined_output(a: &str, b: &str) -> (r: String)
    ensures
        r@ == a@ + b@,
{
    let mut out: Vec<char> = Vec::new();
    push_str(&mut out, a);
    push_str(&mut out, b);
    string_of(out.as_slice())
}

/// `git checkout -b <name>` to create and check out, else `git branch <name>`.
pub open spec fn create_branch_args(name: Seq<char>, checkout: bool) -> Seq<Seq<char>> {
    if checkout {
        seq!["checkout"@, "-b"@, name]
    } else {
        seq!["branch"@, name]
    }
}

/// The argument list that `create_branch_args` describes.
pub fn create_branch_command(name: &str, checkout: bool) -> (r: Vec<String>)
    ensures
        strings_view(r@) == create_branch_args(name@, checkout),
{
    let mut r: Vec<String> = Vec::new();
    if checkout {
        push_string(&mut r, "checkout");
        push_string(&mut r, "-b");
    } else {
        push_string(&mut r, "branch");
    }
    push_string(&mut r, name);
    assert(strings_view(r@) =~= if checkout {
        seq!["checkout"@, "-b"@, name@]
    } else {
        seq!["branch"@, name@]
    });
    r
}

/// `git branch -d <name>`, or `-D` to force.
pub open spec fn delete_branch_args(name: Seq<char>, force: bool) -> Seq<Seq<char>> {
    seq!["branch"@, if force {
        "-D"@
    } else {
        "-d"@
    }, name]
}

/// The argument list that `delete_branch_args` describes.
pub fn delete_branch_command(name: &str, force: bool) -> (r: Vec<String>)
    ensures
        strings_view(r@) == delete_branch_args(name@, force),
{
    let mut r: Vec<String> = Vec::new();
    push_string(&mut r, "branch");
    if force {
        push_string(&mut r, "-D");
    } else {
        push_string(&mut r, "-d");
    }
    push_string(&mut r, name);
    assert(strings_view(r@) =~= seq!["branch"@, if force {
        "-D"@
    } else {
        "-d"@
    }, name@]);
    r
}

/// `git stash push [-u] [-m <message>]`; a blank message is left out.
pub open spec fn stash_push_args(message: Option<Seq<char>>, include_untracked: bool) -> Seq<
    Seq<char>,
> {
    seq!["stash"@, "push"@] + (if include_untracked {
        seq!["-u"@]
    } else {
        seq![]
    }) + match message {
        Some(m) => if trim(m).len() > 0 {
            seq!["-m"@, m]
        } else {
            seq![]
        },
        None => seq![],
    }
}

/// A stash is pushed with its message whenever the message is not blank,
/// whatever else is asked: the arguments start with `stash push`, carry
/// `-u` third exactly when untracked files are included, end with `-m`
/// and the message when it is not blank, and hold nothing more.
pub proof fn law_stash_message_kept(message: Option<Seq<char>>, include_untracked: bool)
    ensures
        ({
            let a = stash_push_args(message, include_untracked);
            let noted = message is Some && trim(message->0).len() > 0;
            &&& a.len() >= 2 && a[0] == "stash"@ && a[1] == "push"@
            &&& include_untracked <==> (a.len() > 2 && a[2] == "-u"@)
            &&& noted ==> (a.len() >= 4 && a[a.len() - 2] == "-m"@ && a[a.len() - 1] == message->0)
            &&& a.len() == 2 + (if include_untracked { 1int } else { 0int }) + (if noted { 2int } else { 0int })
        }),
{
    reveal_strlit("-u");
    reveal_strlit("-m");
    assert("-m"@[1] != "-u"@[1]);
}

/// The arguments that create a stash.
pub fn stash_create_command(message: Option<&str>, include_untracked: bool) -> (r: Vec<String>)
    ensures
        strings_view(r@) == stash_push_args(
            match message {
                Some(m) => Some(m@),
                None => None,
            },
            include_untracked,
        ),
{
    let mut r: Vec<String> = Vec::new();
    push_string(&mut r, "stash");
    push_string(&mut r, "push");
    if include_untracked {
        push_string(&mut r, "-u");
    }
    let ghost mid = strings_view(r@);
    match message {
        Some(m) => {
            let t = chars_of(m);
            let (a, b) = trim_span(t.as_slice());
            if a < b {
                push_string(&mut r, "-m");
                push_string(&mut r, m);
            }
        },
        None => {},
    }
    assert(strings_view(r@) =~= stash_push_args(
        match message {
            Some(m) => Some(m@),
            None => None,
        },
        include_untracked,
    ));
    r
}

/// `git stash <action> stash@{<index>}`.
pub open spec fn stash_args(action: Seq<char>, index: nat) -> Seq<Seq<char>> {
    seq!["stash"@, action, "stash@{"@ + decimal(index) + "}"@]
}

/// The argument list that `stash_args` describes.
pub fn stash_command(action: &str, index: usize) -> (r: Vec<String>)
    ensures
        strings_view(r@) == stash_args(action@, index as nat),
{
    let mut target: Vec<char> = Vec::new();
    push_str(&mut target, "stash@{");
    push_decimal(index as u64, &mut target);
    push_str(&mut target, "}");
    let mut r: Vec<String> = Vec::new();
    push_string(&mut r, "stash");
    push_string(&mut r, action);
    push_chars(&mut r, target.as_slice());
    assert(strings_view(r@) =~= seq!["stash"@, action@, "stash@{"@ + decimal(index as nat) + "}"@]);
    r
}

/// What a stash command names a stash by, `stash list` reads back as the
/// same index.
pub proof fn law_stash_reference_reads_back(action: Seq<char>, n: usize)
    ensures
        stash_index(stash_args(action, n as nat)[2]) == n as int,
{
    reveal_strlit("stash@{");
    reveal_strlit("}");
    let p = "stash@{"@;
    let d = decimal(n as nat);
    let s = p + d + "}"@;
    crate::text::lemma_decimal_reads_back(n as nat);
    assert(s.subrange(0, 7) =~= p);
    assert(crate::text::matches_at(s, p, 0));
    assert(s[7] == d[0]);
    assert(!crate::text::matches_at(s, p, 7)) by {
        if crate::text::matches_at(s, p, 7) {
            assert(s.subrange(7, 14)[0] == p[0]);
        }
    }
    assert(crate::text::strip_all_from(s, p, 7) == 7);
    assert(crate::text::strip_all_from(s, p, 0) == 7);
    let a = s.subrange(7, s.len() as int);
    assert(a =~= d + "}"@);
    assert(a[a.len() - 1] == '}');
    assert(a[a.len() - 2] == d[d.len() - 1]);
    assert(crate::text::is_digit(d[d.len() - 1]));
    assert(rstrip_char(a, '}', a.len() - 1) == a.len() - 1);
    assert(rstrip_char(a, '}', a.len() as int) == a.len() - 1);
    assert(a.subrange(0, a.len() - 1) =~= d);
}

/// The format of one history line: nine fields separated by NUL.
pub open spec fn log_format() -> Seq<char> {
    "--format=%H%x00%h%x00%an%x00%ae%x00%ad%x00%s%x00%b%x00%P%x00%D"@
}

/// `git log` for `limit` commits after the first `skip`.
pub open spec fn log_args(limit: nat, skip: nat) -> Seq<Seq<char>> {
    seq!["log"@, "--max-count="@ + decimal(limit), "--skip="@ + decimal(skip), "--date=iso"@, log_format()]
}

/// The argument list that `log_args` describes.
pub fn log_command(limit: usize, skip: usize) -> (r: Vec<String>)
    ensures
        strings_view(r@) == log_args(limit as nat, skip as nat),
{
    let mut lim: Vec<char> = Vec::new();
    push_str(&mut lim, "--max-count=");
    push_decimal(limit as u64, &mut lim);
    let mut sk: Vec<char> = Vec::new();
    push_str(&mut sk, "--skip=");
    push_decimal(skip as u64, &mut sk);
    let mut r: Vec<String> = Vec::new();
    push_string(&mut r, "log");
    push_chars(&mut r, lim.as_slice());
    push_chars(&mut r, sk.as_slice());
    push_string(&mut r, "--date=iso");
    push_string(&mut r, "--format=%H%x00%h%x00%an%x00%ae%x00%ad%x00%s%x00%b%x00%P%x00%D");
    assert(strings_view(r@) =~= seq![
        "log"@,
        "--max-count="@ + decimal(limit as nat),
        "--skip="@ + decimal(skip as nat),
        "--date=iso"@,
        log_format(),
    ]);
    r
}

/// `git diff-tree` listing the files of commit `hash` (the root commit too).
pub open spec fn commit_files_args(hash: Seq<char>) -> Seq<Seq<char>> {
    seq!["diff-tree"@, "--no-commit-id"@, "--name-only"@, "-r"@, "--root"@, hash]
}

/// The argument list that `commit_files_args` describes.
pub fn commit_files_command(hash: &str) -> (r: Vec<String>)
    ensures
        strings_view(r@) == commit_files_args(hash@),
{
    let mut r: Vec<String> = Vec::new();
    push_string(&mut r, "diff-tree");
    push_string(&mut r, "--no-commit-id");
    push_string(&mut r, "--name-only");
    push_string(&mut r, "-r");
    push_string(&mut r, "--root");
    push_string(&mut r, hash);
    assert(strings_view(r@) =~= seq![
        "diff-tree"@,
        "--no-commit-id"@,
        "--name-only"@,
        "-r"@,
        "--root"@,
        hash@,
    ]);
    r
}

} // verus!



