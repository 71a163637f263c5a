//! Conflict markers, and the checks and shaping around the explorer's
//! file operations.

use crate::git::{may_be_absolute, relativizes, to_repo_relative, GitError};
use crate::git::ops::seq_lt;
use crate::text::{
    chars_of, contains, has_substring, push_all, push_str, replace_char, replace_chars, split,
    split_spans,
    has_prefix, line_spans, lines_from, lines, same_chars, spans_are, starts_with, strip_all,
    string_of, strings_view, strip_cr, trim_start, trim_start_at, trim_start_matches,
};
use vstd::prelude::*;
use vstd::slice::slice_subrange;

verus! {

/// One conflict block: the current side and the incoming side.
#[derive(Debug, Clone)]
pub struct ConflictRegion {
    pub current_header: String,
    pub current_lines: Vec<String>,
    pub incoming_header: String,
    pub incoming_lines: Vec<String>,
}

/// One entry of a directory listing: `kind` is `"dir"` or `"file"`.
#[derive(Debug, Clone)]
pub struct TreeEntry {
    pub path: String,
    pub kind: String,
    pub size: u64,
}

/// A file with the conflict blocks found in it.
#[derive(Debug, Clone)]
pub struct ConflictFile {
    pub path: String,
    pub regions: Vec<ConflictRegion>,
    pub has_conflicts: bool,
    pub original_content: String,
}

pub struct RegionModel {
    pub current_header: Seq<char>,
    pub current_lines: Seq<Seq<char>>,
    pub incoming_header: Seq<char>,
    pub incoming_lines: Seq<Seq<char>>,
}

pub struct ConflictFileModel {
    pub path: Seq<char>,
    pub regions: Seq<RegionModel>,
    pub has_conflicts: bool,
    pub original_content: Seq<char>,
}

impl View for ConflictRegion {
    type V = RegionModel;

    open spec fn view(&self) -> RegionModel {
        RegionModel {
            current_header: self.current_header@,
            current_lines: strings_view(self.current_lines@),
            incoming_header: self.incoming_header@,
            incoming_lines: strings_view(self.incoming_lines@),
        }
    }
}

pub open spec fn regions_view(v: Seq<ConflictRegion>) -> Seq<RegionModel> {
    v.map_values(|r: ConflictRegion| r@)
}

impl View for ConflictFile {
    type V = ConflictFileModel;

    open spec fn view(&self) -> ConflictFileModel {
        ConflictFileModel {
            path: self.path@,
            regions: regions_view(self.regions@),
            has_conflicts: self.has_conflicts,
            original_content: self.original_content@,
        }
    }
}

// ---------------------------------------------------------------------
// The shape of a conflicted text
// ---------------------------------------------------------------------

/// A line that, once leading whitespace is dropped, starts with `m`.
pub open spec fn is_marker(l: Seq<char>, m: Seq<char>) -> bool {
    starts_with(trim_start(l), m)
}

/// The first line at or after `i` that is a `m` marker (or the end).
pub open spec fn scan_to(ls: Seq<Seq<char>>, i: int, m: Seq<char>) -> int
    decreases ls.len() - i,
{
    if i < 0 || i >= ls.len() {
        i
    } else if is_marker(ls[i], m) {
        i
    } else {
        scan_to(ls, i + 1, m)
    }
}

/// The markers of a conflict block: its opening, separating and closing lines.
pub open spec fn open_marker() -> Seq<char> {
    "<<<<<<< "@
}

pub open spec fn sep_marker() -> Seq<char> {
    "======="@
}

pub open spec fn close_marker() -> Seq<char> {
    ">>>>>>> "@
}

/// For a block opened at line `i`: the separator line (or the end).
pub open spec fn block_sep(ls: Seq<Seq<char>>, i: int) -> int {
    scan_to(ls, i + 1, sep_marker())
}

/// For a block opened at line `i`: where its incoming side starts.
pub open spec fn block_inc(ls: Seq<Seq<char>>, i: int) -> int {
    if block_sep(ls, i) < ls.len() {
        block_sep(ls, i) + 1
    } else {
        block_sep(ls, i)
    }
}

/// For a block opened at line `i`: the closing line (or the end).
pub open spec fn block_close(ls: Seq<Seq<char>>, i: int) -> int {
    scan_to(ls, block_inc(ls, i), close_marker())
}

/// For a block opened at line `i`: the first line after it.
pub open spec fn block_next(ls: Seq<Seq<char>>, i: int) -> int {
    if block_close(ls, i) < ls.len() {
        block_close(ls, i) + 1
    } else {
        block_close(ls, i)
    }
}

/// The region that the block opened at line `i` describes.
pub open spec fn region_at(ls: Seq<Seq<char>>, i: int) -> RegionModel {
    RegionModel {
        current_header: trim_start_matches(trim_start(ls[i]), open_marker()),
        current_lines: ls.subrange(i + 1, block_sep(ls, i)),
        incoming_header: if block_close(ls, i) < ls.len() {
            trim_start_matches(trim_start(ls[block_close(ls, i)]), close_marker())
        } else {
            seq![]
        },
        incoming_lines: ls.subrange(block_inc(ls, i), block_close(ls, i)),
    }
}

/// The conflict regions of the lines from `i` on.
pub open spec fn regions_from(ls: Seq<Seq<char>>, i: int) -> Seq<RegionModel>
    decreases ls.len() - i,
{
    if i < 0 || i >= ls.len() {
        seq![]
    } else if is_marker(ls[i], open_marker()) {
        if block_next(ls, i) <= i || block_next(ls, i) > ls.len() {
            seq![]
        } else {
            seq![region_at(ls, i)] + regions_from(ls, block_next(ls, i))
        }
    } else {
        regions_from(ls, i + 1)
    }
}

/// The conflict file that `content` at `path` describes.
pub open spec fn conflicts_of(content: Seq<char>, path: Seq<char>) -> ConflictFileModel {
    ConflictFileModel {
        path,
        regions: regions_from(lines(content), 0),
        has_conflicts: regions_from(lines(content), 0).len() > 0,
        original_content: content,
    }
}

pub proof fn lemma_scan_to(ls: Seq<Seq<char>>, i: int, m: Seq<char>)
    requires
        0 <= i,
    ensures
        i <= ls.len() ==> i <= scan_to(ls, i, m) <= ls.len(),
        i > ls.len() ==> scan_to(ls, i, m) == i,
        forall|k: int| i <= k < scan_to(ls, i, m) && k < ls.len() ==> !is_marker(#[trigger] ls[k], m),
        scan_to(ls, i, m) < ls.len() ==> is_marker(ls[scan_to(ls, i, m)], m),
    decreases ls.len() - i,
{
    if i < ls.len() && !is_marker(ls[i], m) {
        lemma_scan_to(ls, i + 1, m);
    }
}

/// The lines of a block come in order: opening, separator, incoming side,
/// closing line, next line.
pub proof fn lemma_block(ls: Seq<Seq<char>>, i: int)
    requires
        0 <= i < ls.len(),
    ensures
        i + 1 <= block_sep(ls, i) <= block_inc(ls, i) <= block_close(ls, i) <= ls.len(),
        i < block_next(ls, i) <= ls.len(),
{
    lemma_scan_to(ls, i + 1, sep_marker());
    lemma_scan_to(ls, block_inc(ls, i), close_marker());
}


/// The text of some lines, each followed by `'\n'`.
pub open spec fn join_lines(ls: Seq<Seq<char>>) -> Seq<char>
    decreases ls.len(),
{
    if ls.len() == 0 {
        seq![]
    } else {
        join_lines(ls.drop_last()) + ls.last() + seq!['\n']
    }
}

/// Choice `n` exists and reads `c`.
pub open spec fn choice_is(choices: Seq<Seq<char>>, n: int, c: Seq<char>) -> bool {
    0 <= n < choices.len() && choices[n] == c
}

/// Choice `n` is one that resolves a block.
pub open spec fn is_resolving(choices: Seq<Seq<char>>, n: int) -> bool {
    choice_is(choices, n, "current"@) || choice_is(choices, n, "incoming"@) || choice_is(
        choices,
        n,
        "both"@,
    )
}

/// What the block opened at line `i` becomes under choice `n`.
pub open spec fn block_text(ls: Seq<Seq<char>>, i: int, choices: Seq<Seq<char>>, n: int) -> Seq<
    char,
> {
    let cur = ls.subrange(i + 1, block_sep(ls, i));
    let inc = ls.subrange(block_inc(ls, i), block_close(ls, i));
    if choice_is(choices, n, "current"@) {
        join_lines(cur)
    } else if choice_is(choices, n, "incoming"@) {
        join_lines(inc)
    } else if choice_is(choices, n, "both"@) {
        join_lines(cur) + join_lines(inc)
    } else {
        join_lines(ls.subrange(i, block_next(ls, i)))
    }
}

/// The text of the lines from `i` on, with block `n` and the ones after
/// it resolved by `choices`.
pub open spec fn resolved_from(ls: Seq<Seq<char>>, i: int, choices: Seq<Seq<char>>, n: int) -> Seq<
    char,
>
    decreases ls.len() - i,
{
    if i < 0 || i >= ls.len() {
        seq![]
    } else if is_marker(ls[i], open_marker()) {
        if block_next(ls, i) <= i || block_next(ls, i) > ls.len() {
            seq![]
        } else {
            block_text(ls, i, choices, n) + resolved_from(ls, block_next(ls, i), choices, n + 1)
        }
    } else {
        ls[i] + seq!['\n'] + resolved_from(ls, i + 1, choices, n)
    }
}

/// Every block left unresolved from line `i` on (block `n` first) is
/// closed: replaying it never runs past the last line.
pub open spec fn resolvable_from(ls: Seq<Seq<char>>, i: int, choices: Seq<Seq<char>>, n: int) -> bool
    decreases ls.len() - i,
{
    if i < 0 || i >= ls.len() {
        true
    } else if is_marker(ls[i], open_marker()) {
        if block_next(ls, i) <= i || block_next(ls, i) > ls.len() {
            true
        } else {
            (block_close(ls, i) < ls.len() || is_resolving(choices, n)) && resolvable_from(
                ls,
                block_next(ls, i),
                choices,
                n + 1,
            )
        }
    } else {
        resolvable_from(ls, i + 1, choices, n)
    }
}

/// `content` with its conflict blocks resolved by `choices`, block by block.
pub open spec fn resolved(content: Seq<char>, choices: Seq<Seq<char>>) -> Seq<char> {
    resolved_from(lines(content), 0, choices, 0)
}

/// Resolving `content` by `choices` never replays a block that has no
/// closing line.
pub open spec fn resolvable(content: Seq<char>, choices: Seq<Seq<char>>) -> bool {
    resolvable_from(lines(content), 0, choices, 0)
}

pub proof fn lemma_join_lines_concat(a: Seq<Seq<char>>, b: Seq<Seq<char>>)
    ensures
        join_lines(a + b) == join_lines(a) + join_lines(b),
    decreases b.len(),
{
    if b.len() == 0 {
        assert(a + b =~= a);
        assert(join_lines(b) =~= Seq::<char>::empty());
        assert(join_lines(a) + join_lines(b) =~= join_lines(a));
    } else {
        lemma_join_lines_concat(a, b.drop_last());
        assert((a + b).drop_last() =~= a + b.drop_last());
        assert((a + b).last() == b.last());
        assert(join_lines(a + b) =~= join_lines(a) + join_lines(b));
    }
}

pub proof fn lemma_join_single(x: Seq<char>)
    ensures
        join_lines(seq![x]) == x + seq!['\n'],
{
    let one: Seq<Seq<char>> = seq![x];
    assert(one.drop_last() =~= Seq::<Seq<char>>::empty());
    assert(join_lines(one.drop_last()) == Seq::<char>::empty());
    assert(one.last() == x);
    assert(Seq::<char>::empty() + x =~= x);
}

/// A text whose every line ends with a bare `'\n'`: it ends with `'\n'`
/// (or is empty) and holds no `"\r\n"`.
pub open spec fn plain_lines(c: Seq<char>) -> bool {
    &&& (c.len() == 0 || c.last() == '\n')
    &&& forall|k: int| 0 < k < c.len() && #[trigger] c[k] == '\n' ==> c[k - 1] != '\r'
}

/// A text whose lines all end with a bare `'\n'` is the join of its lines.
pub proof fn lemma_join_lines_of_text(c: Seq<char>, start: int)
    requires
        plain_lines(c),
        0 <= start <= c.len(),
        start == 0 || c[start - 1] == '\n',
    ensures
        join_lines(lines_from(c, start)) == c.subrange(start, c.len() as int),
    decreases c.len() - start,
{
    if start >= c.len() {
        assert(c.subrange(start, c.len() as int) =~= Seq::<char>::empty());
    } else {
        let e = crate::text::line_end(c, start);
        crate::text::lemma_line_end(c, start);
        crate::text::lemma_find_from(c, seq!['\n'], start);
        assert(c.subrange(c.len() - 1, c.len() as int) =~= seq!['\n']);
        assert(crate::text::matches_at(c, seq!['\n'], c.len() - 1));
        assert(e < c.len());
        assert(c[e] == '\n');
        assert(crate::text::line_at(c, start, e) == c.subrange(start, e));
        lemma_join_lines_of_text(c, e + 1);
        let rest = lines_from(c, e + 1);
        assert(lines_from(c, start) == seq![c.subrange(start, e)] + rest);
        lemma_join_lines_concat(seq![c.subrange(start, e)], rest);
        lemma_join_single(c.subrange(start, e));
        assert(c.subrange(start, c.len() as int) =~= c.subrange(start, e) + seq!['\n']
            + c.subrange(e + 1, c.len() as int));
    }
}

/// With no choices, every closed block is replayed as it stands.
pub proof fn lemma_unresolved_from(ls: Seq<Seq<char>>, i: int, n: int)
    requires
        0 <= i <= ls.len(),
        resolvable_from(ls, i, seq![], n),
    ensures
        resolved_from(ls, i, seq![], n) == join_lines(ls.subrange(i, ls.len() as int)),
    decreases ls.len() - i,
{
    let none: Seq<Seq<char>> = seq![];
    if i >= ls.len() {
        assert(ls.subrange(i, ls.len() as int) =~= Seq::<Seq<char>>::empty());
    } else if is_marker(ls[i], open_marker()) {
        lemma_block(ls, i);
        let c = block_close(ls, i);
        assert(c < ls.len());
        assert(block_next(ls, i) == c + 1);
        assert(!is_resolving(none, n));
        assert(block_text(ls, i, none, n) == join_lines(ls.subrange(i, c + 1)));
        lemma_unresolved_from(ls, c + 1, n + 1);
        lemma_join_lines_concat(ls.subrange(i, c + 1), ls.subrange(c + 1, ls.len() as int));
        assert(ls.subrange(i, c + 1) + ls.subrange(c + 1, ls.len() as int) =~= ls.subrange(
            i,
            ls.len() as int,
        ));
    } else {
        lemma_unresolved_from(ls, i + 1, n);
        lemma_join_lines_concat(seq![ls[i]], ls.subrange(i + 1, ls.len() as int));
        lemma_join_single(ls[i]);
        assert(seq![ls[i]] + ls.subrange(i + 1, ls.len() as int) =~= ls.subrange(
            i,
            ls.len() as int,
        ));
    }
}

/// Resolving with no choices keeps a text as it was, markers and all,
/// when every conflict block in it is closed and its lines end with a
/// bare `'\n'`.
pub proof fn law_unresolved_text_is_kept(content: Seq<char>)
    requires
        resolvable(content, seq![]),
        plain_lines(content),
    ensures
        resolved(content, seq![]) == content,
{
    let ls = lines(content);
    lemma_unresolved_from(ls, 0, 0);
    assert(ls.subrange(0, ls.len() as int) =~= ls);
    lemma_join_lines_of_text(content, 0);
    assert(content.subrange(0, content.len() as int) =~= content);
}

/// A resolving choice for each block from line `i` on makes them resolvable.
pub proof fn lemma_choices_resolve_from(ls: Seq<Seq<char>>, i: int, choices: Seq<Seq<char>>, n: int)
    requires
        0 <= i,
        forall|k: int| n <= k < n + regions_from(ls, i).len() ==> #[trigger] is_resolving(choices, k),
    ensures
        resolvable_from(ls, i, choices, n),
    decreases ls.len() - i,
{
    if i < ls.len() {
        if is_marker(ls[i], open_marker()) {
            if i < block_next(ls, i) <= ls.len() {
                let rest = regions_from(ls, block_next(ls, i));
                assert(regions_from(ls, i) == seq![region_at(ls, i)] + rest);
                assert(is_resolving(choices, n));
                lemma_choices_resolve_from(ls, block_next(ls, i), choices, n + 1);
            }
        } else {
            lemma_choices_resolve_from(ls, i + 1, choices, n);
        }
    }
}

/// Choosing `current`, `incoming` or `both` for every region that the
/// parser finds in a text lets the text be resolved.
pub proof fn law_full_choices_resolve(content: Seq<char>, path: Seq<char>, choices: Seq<Seq<char>>)
    requires
        forall|k: int|
            0 <= k < conflicts_of(content, path).regions.len() ==> #[trigger] is_resolving(choices, k),
    ensures
        resolvable(content, choices),
{
    lemma_choices_resolve_from(lines(content), 0, choices, 0);
}

/// The lines that a resolving choice keeps of the block opened at line
/// `i`: its current side, its incoming side, or both.
pub open spec fn chosen_lines(ls: Seq<Seq<char>>, i: int, choices: Seq<Seq<char>>, n: int) -> Seq<
    Seq<char>,
> {
    let cur = ls.subrange(i + 1, block_sep(ls, i));
    let inc = ls.subrange(block_inc(ls, i), block_close(ls, i));
    if choice_is(choices, n, "current"@) {
        cur
    } else if choice_is(choices, n, "incoming"@) {
        inc
    } else {
        cur + inc
    }
}

/// The lines from line `i` on, each block (block `n` first) replaced by
/// the lines that its choice keeps.
pub open spec fn kept_lines(ls: Seq<Seq<char>>, i: int, choices: Seq<Seq<char>>, n: int) -> Seq<
    Seq<char>,
>
    decreases ls.len() - i,
{
    if i < 0 || i >= ls.len() {
        seq![]
    } else if is_marker(ls[i], open_marker()) {
        if block_next(ls, i) <= i || block_next(ls, i) > ls.len() {
            seq![]
        } else {
            chosen_lines(ls, i, choices, n) + kept_lines(ls, block_next(ls, i), choices, n + 1)
        }
    } else {
        seq![ls[i]] + kept_lines(ls, i + 1, choices, n)
    }
}

/// No side of region `r` holds a line that opens a block.
pub open spec fn region_clean(r: RegionModel) -> bool {
    &&& forall|j: int|
        0 <= j < r.current_lines.len() ==> !is_marker(#[trigger] r.current_lines[j], open_marker())
    &&& forall|j: int|
        0 <= j < r.incoming_lines.len() ==> !is_marker(#[trigger] r.incoming_lines[j], open_marker())
}

/// A single line that opens no block.
pub open spec fn line_ok(l: Seq<char>) -> bool {
    !l.contains('\n') && !is_marker(l, open_marker())
}

/// With a resolving choice for every block, resolution writes out the kept
/// lines, none of which opens a block where no side of a block does.
pub proof fn lemma_kept_lines(ls: Seq<Seq<char>>, i: int, choices: Seq<Seq<char>>, n: int)
    requires
        0 <= i,
        forall|k: int| n <= k < n + regions_from(ls, i).len() ==> #[trigger] is_resolving(choices, k),
        forall|k: int|
            0 <= k < regions_from(ls, i).len() ==> region_clean(#[trigger] regions_from(ls, i)[k]),
        forall|j: int| 0 <= j < ls.len() ==> !(#[trigger] ls[j]).contains('\n'),
    ensures
        resolved_from(ls, i, choices, n) == join_lines(kept_lines(ls, i, choices, n)),
        forall|k: int|
            0 <= k < kept_lines(ls, i, choices, n).len() ==> line_ok(
                #[trigger] kept_lines(ls, i, choices, n)[k],
            ),
    decreases ls.len() - i,
{
    let kept = kept_lines(ls, i, choices, n);
    if i >= ls.len() {
        assert(kept =~= Seq::<Seq<char>>::empty());
    } else if is_marker(ls[i], open_marker()) {
        if i < block_next(ls, i) <= ls.len() {
            lemma_block(ls, i);
            let nx = block_next(ls, i);
            let rest = regions_from(ls, nx);
            let all = regions_from(ls, i);
            assert(all == seq![region_at(ls, i)] + rest);
            assert forall|k: int| 0 <= k < rest.len() implies region_clean(#[trigger] rest[k]) by {
                assert(rest[k] == all[k + 1]);
            }
            assert(region_clean(all[0]));
            assert(is_resolving(choices, n));
            lemma_kept_lines(ls, nx, choices, n + 1);
            let cur = ls.subrange(i + 1, block_sep(ls, i));
            let inc = ls.subrange(block_inc(ls, i), block_close(ls, i));
            let ch = chosen_lines(ls, i, choices, n);
            let later = kept_lines(ls, nx, choices, n + 1);
            lemma_join_lines_concat(cur, inc);
            lemma_join_lines_concat(ch, later);
            assert(block_text(ls, i, choices, n) == join_lines(ch));
            assert(kept == ch + later);
            assert forall|k: int| 0 <= k < cur.len() implies line_ok(#[trigger] cur[k]) by {
                assert(cur[k] == ls[i + 1 + k]);
                assert(region_at(ls, i).current_lines[k] == cur[k]);
            }
            assert forall|k: int| 0 <= k < inc.len() implies line_ok(#[trigger] inc[k]) by {
                assert(inc[k] == ls[block_inc(ls, i) + k]);
                assert(region_at(ls, i).incoming_lines[k] == inc[k]);
            }
            assert forall|k: int| 0 <= k < ch.len() implies line_ok(#[trigger] ch[k]) by {
                if !choice_is(choices, n, "current"@) && !choice_is(choices, n, "incoming"@) {
                    if k < cur.len() {
                        assert(ch[k] == cur[k]);
                    } else {
                        assert(ch[k] == inc[k - cur.len()]);
                    }
                }
            }
            assert forall|k: int| 0 <= k < kept.len() implies line_ok(#[trigger] kept[k]) by {
                if k < ch.len() {
                    assert(kept[k] == ch[k]);
                } else {
                    assert(kept[k] == later[k - ch.len()]);
                }
            }
        } else {
            assert(kept =~= Seq::<Seq<char>>::empty());
        }
    } else {
        assert(regions_from(ls, i) == regions_from(ls, i + 1));
        lemma_kept_lines(ls, i + 1, choices, n);
        let later = kept_lines(ls, i + 1, choices, n);
        lemma_join_lines_concat(seq![ls[i]], later);
        lemma_join_single(ls[i]);
        assert(kept == seq![ls[i]] + later);
        assert forall|k: int| 0 <= k < kept.len() implies line_ok(#[trigger] kept[k]) by {
            if k > 0 {
                assert(kept[k] == later[k - 1]);
            }
        }
    }
}

/// The lines of joined lines, none holding `'\n'`, are those lines (a
/// final `'\r'` of one is lost with its `"\r\n"`).
pub proof fn lemma_lines_of_join(m: Seq<Seq<char>>)
    requires
        forall|k: int| 0 <= k < m.len() ==> !(#[trigger] m[k]).contains('\n'),
    ensures
        lines(join_lines(m)) == m.map_values(|y: Seq<char>| strip_cr(y)),
    decreases m.len(),
{
    if m.len() == 0 {
        assert(lines(join_lines(m)) =~= m.map_values(|y: Seq<char>| strip_cr(y)));
    } else {
        let a = m[0];
        let rest = m.drop_first();
        assert(m =~= seq![a] + rest);
        lemma_join_lines_concat(seq![a], rest);
        lemma_join_single(a);
        assert(join_lines(m) =~= a + seq!['\n'] + join_lines(rest));
        crate::text::lemma_lines_cons(a, join_lines(rest));
        assert forall|k: int| 0 <= k < rest.len() implies !(#[trigger] rest[k]).contains('\n') by {
            assert(rest[k] == m[k + 1]);
        }
        lemma_lines_of_join(rest);
        assert(lines(join_lines(m)) =~= m.map_values(|y: Seq<char>| strip_cr(y)));
    }
}

/// Lines none of which opens a block hold no region.
pub proof fn lemma_no_regions(ls: Seq<Seq<char>>, i: int)
    requires
        0 <= i,
        forall|k: int| 0 <= k < ls.len() ==> !is_marker(#[trigger] ls[k], open_marker()),
    ensures
        regions_from(ls, i).len() == 0,
    decreases ls.len() - i,
{
    if i < ls.len() {
        lemma_no_regions(ls, i + 1);
    }
}

/// Choosing `current`, `incoming` or `both` for every region that the
/// parser finds, where no side of a region holds a line that opens a
/// block, leaves a text in which the parser finds no conflict.
pub proof fn law_full_resolution_leaves_no_conflict(
    content: Seq<char>,
    path: Seq<char>,
    choices: Seq<Seq<char>>,
)
    requires
        forall|k: int|
            0 <= k < conflicts_of(content, path).regions.len() ==> #[trigger] is_resolving(choices, k),
        forall|k: int|
            0 <= k < conflicts_of(content, path).regions.len() ==> region_clean(
                #[trigger] conflicts_of(content, path).regions[k],
            ),
    ensures
        conflicts_of(resolved(content, choices), path).regions.len() == 0,
        !conflicts_of(resolved(content, choices), path).has_conflicts,
{
    reveal_strlit("<<<<<<< ");
    let ls = lines(content);
    crate::text::lemma_lines_no_newline(content, 0);
    let regs = regions_from(ls, 0);
    assert(conflicts_of(content, path).regions == regs);
    assert forall|k: int| 0 <= k < regs.len() implies region_clean(#[trigger] regs[k]) by {
        assert(conflicts_of(content, path).regions[k] == regs[k]);
    }
    lemma_kept_lines(ls, 0, choices, 0);
    let kept = kept_lines(ls, 0, choices, 0);
    lemma_lines_of_join(kept);
    let ls2 = lines(resolved(content, choices));
    assert forall|k: int| 0 <= k < ls2.len() implies !is_marker(#[trigger] ls2[k], open_marker()) by {
        assert(ls2[k] == strip_cr(kept[k]));
        assert(line_ok(kept[k]));
        if is_marker(ls2[k], open_marker()) {
            crate::text::lemma_trim_start_cr(kept[k], open_marker());
        }
    }
    lemma_no_regions(ls2, 0);
}

/// The markers of lines after `x` are found where they are in `y`.
pub proof fn lemma_scan_shift(x: Seq<Seq<char>>, y: Seq<Seq<char>>, j: int, m: Seq<char>)
    requires
        0 <= j,
    ensures
        scan_to(x + y, x.len() + j, m) == x.len() + scan_to(y, j, m),
    decreases y.len() - j,
{
    if j < y.len() {
        assert((x + y)[x.len() + j] == y[j]);
        if !is_marker(y[j], m) {
            lemma_scan_shift(x, y, j + 1, m);
        }
    }
}

/// A marker found within `x` is found there whatever follows.
pub proof fn lemma_scan_prefix(x: Seq<Seq<char>>, y: Seq<Seq<char>>, i: int, m: Seq<char>)
    requires
        0 <= i,
        scan_to(x, i, m) < x.len(),
    ensures
        scan_to(x + y, i, m) == scan_to(x, i, m),
    decreases x.len() - i,
{
    assert((x + y)[i] == x[i]);
    if !is_marker(x[i], m) {
        lemma_scan_prefix(x, y, i + 1, m);
    }
}

/// Resolving the lines after `x` is resolving them alone.
pub proof fn lemma_resolved_shift(
    x: Seq<Seq<char>>,
    y: Seq<Seq<char>>,
    j: int,
    choices: Seq<Seq<char>>,
    n: int,
)
    requires
        0 <= j,
    ensures
        resolved_from(x + y, x.len() + j, choices, n) == resolved_from(y, j, choices, n),
    decreases y.len() - j,
{
    let ls = x + y;
    let i = x.len() + j;
    if j < y.len() {
        assert(ls[i] == y[j]);
        if is_marker(y[j], open_marker()) {
            lemma_block(y, j);
            lemma_scan_shift(x, y, j + 1, sep_marker());
            assert(block_sep(ls, i) == x.len() + block_sep(y, j));
            assert(block_inc(ls, i) == x.len() + block_inc(y, j));
            lemma_scan_shift(x, y, block_inc(y, j), close_marker());
            assert(block_close(ls, i) == x.len() + block_close(y, j));
            assert(block_next(ls, i) == x.len() + block_next(y, j));
            assert(ls.subrange(i + 1, block_sep(ls, i)) =~= y.subrange(j + 1, block_sep(y, j)));
            assert(ls.subrange(block_inc(ls, i), block_close(ls, i)) =~= y.subrange(
                block_inc(y, j),
                block_close(y, j),
            ));
            assert(ls.subrange(i, block_next(ls, i)) =~= y.subrange(j, block_next(y, j)));
            assert(block_text(ls, i, choices, n) == block_text(y, j, choices, n));
            lemma_resolved_shift(x, y, block_next(y, j), choices, n + 1);
        } else {
            lemma_resolved_shift(x, y, j + 1, choices, n);
        }
    }
}

/// Where every block of `x` from line `i` on closes within `x`, resolving
/// `x` and then `y` is resolving the two apart, the blocks of `y` taking
/// the choices after those of `x`.
pub proof fn lemma_resolved_split(
    x: Seq<Seq<char>>,
    y: Seq<Seq<char>>,
    i: int,
    choices: Seq<Seq<char>>,
    n: int,
    m: int,
)
    requires
        0 <= i <= x.len(),
        resolvable_from(x, i, seq![], m),
    ensures
        resolved_from(x + y, i, choices, n) == resolved_from(x, i, choices, n) + resolved_from(
            y,
            0,
            choices,
            n + regions_from(x, i).len(),
        ),
    decreases x.len() - i,
{
    let ls = x + y;
    if i == x.len() {
        lemma_resolved_shift(x, y, 0, choices, n);
        assert(resolved_from(x, i, choices, n) =~= Seq::<char>::empty());
        assert(resolved_from(x, i, choices, n) + resolved_from(y, 0, choices, n) =~= resolved_from(
            y,
            0,
            choices,
            n,
        ));
    } else {
        assert(ls[i] == x[i]);
        if is_marker(x[i], open_marker()) {
            lemma_block(x, i);
            let none: Seq<Seq<char>> = seq![];
            assert(!is_resolving(none, m));
            assert(block_close(x, i) < x.len());
            assert(block_sep(x, i) < x.len()) by {
                if block_sep(x, i) >= x.len() {
                    assert(block_inc(x, i) == x.len());
                    lemma_scan_to(x, x.len() as int, close_marker());
                }
            }
            lemma_scan_prefix(x, y, i + 1, sep_marker());
            assert(block_sep(ls, i) == block_sep(x, i));
            assert(block_inc(ls, i) == block_inc(x, i));
            lemma_scan_prefix(x, y, block_inc(x, i), close_marker());
            assert(block_close(ls, i) == block_close(x, i));
            assert(block_next(ls, i) == block_next(x, i));
            assert(ls.subrange(i + 1, block_sep(ls, i)) =~= x.subrange(i + 1, block_sep(x, i)));
            assert(ls.subrange(block_inc(ls, i), block_close(ls, i)) =~= x.subrange(
                block_inc(x, i),
                block_close(x, i),
            ));
            assert(ls.subrange(i, block_next(ls, i)) =~= x.subrange(i, block_next(x, i)));
            assert(block_text(ls, i, choices, n) == block_text(x, i, choices, n));
            let nx = block_next(x, i);
            lemma_resolved_split(x, y, nx, choices, n + 1, m + 1);
            assert(regions_from(x, i).len() == 1 + regions_from(x, nx).len());
            let bt = block_text(x, i, choices, n);
            assert(resolved_from(ls, i, choices, n) == bt + resolved_from(ls, nx, choices, n + 1));
            assert(resolved_from(x, i, choices, n) == bt + resolved_from(x, nx, choices, n + 1));
            assert(n + 1 + regions_from(x, nx).len() == n + regions_from(x, i).len());
            assert(resolved_from(ls, i, choices, n) =~= resolved_from(x, i, choices, n)
                + resolved_from(y, 0, choices, n + regions_from(x, i).len()));
        } else {
            lemma_resolved_split(x, y, i + 1, choices, n, m);
            assert(regions_from(x, i) == regions_from(x, i + 1));
            assert(resolved_from(ls, i, choices, n) =~= resolved_from(x, i, choices, n)
                + resolved_from(y, 0, choices, n + regions_from(x, i).len()));
        }
    }
}

/// The choices after the first `k` (none where there are fewer).
pub open spec fn later_choices(choices: Seq<Seq<char>>, k: int) -> Seq<Seq<char>> {
    if 0 <= k <= choices.len() {
        choices.skip(k)
    } else {
        seq![]
    }
}

/// Counting the blocks from `n + k` in `choices` is counting them from `n`
/// in the choices after the first `k`.
pub proof fn lemma_resolved_offset(ls: Seq<Seq<char>>, i: int, choices: Seq<Seq<char>>, n: int, k: int)
    requires
        0 <= i,
        0 <= n,
        0 <= k,
    ensures
        resolved_from(ls, i, choices, n + k) == resolved_from(ls, i, later_choices(choices, k), n),
    decreases ls.len() - i,
{
    let lc = later_choices(choices, k);
    assert forall|c: Seq<char>| choice_is(choices, n + k, c) == choice_is(lc, n, c) by {
        if k <= choices.len() && 0 <= n < lc.len() {
            assert(lc[n] == choices[n + k]);
        }
    }
    if 0 <= i < ls.len() {
        if is_marker(ls[i], open_marker()) {
            assert(block_text(ls, i, choices, n + k) == block_text(ls, i, lc, n)) by {
                assert(choice_is(choices, n + k, "current"@) == choice_is(lc, n, "current"@));
                assert(choice_is(choices, n + k, "incoming"@) == choice_is(lc, n, "incoming"@));
                assert(choice_is(choices, n + k, "both"@) == choice_is(lc, n, "both"@));
            }
            if i < block_next(ls, i) <= ls.len() {
                lemma_resolved_offset(ls, block_next(ls, i), choices, n + 1, k);
                assert(n + 1 + k == n + k + 1);
            }
        } else {
            lemma_resolved_offset(ls, i + 1, choices, n, k);
        }
    }
}

/// The lines of a text that ends a line (or is empty) and of what follows
/// it are its lines, then the lines of what follows.
pub proof fn lemma_lines_append(a: Seq<char>, b: Seq<char>, s: int)
    requires
        a.len() == 0 || a.last() == '\n',
        0 <= s <= a.len(),
    ensures
        lines_from(a + b, s) == lines_from(a, s) + lines(b),
    decreases a.len() - s,
{
    let t = a + b;
    if s == a.len() {
        crate::text::lemma_lines_shift(a, b, 0);
        assert(lines_from(a, s) =~= Seq::<Seq<char>>::empty());
        assert(lines_from(a, s) + lines(b) =~= lines(b));
    } else {
        crate::text::lemma_line_end(a, s);
        let e = crate::text::line_end(a, s);
        assert(e < a.len()) by {
            if e >= a.len() {
                assert(a[a.len() - 1] != '\n');
            }
        }
        assert forall|k: int| s <= k < e implies t[k] != '\n' by {
            assert(t[k] == a[k]);
        }
        assert(t[e] == a[e]);
        crate::text::lemma_line_end_is(t, s, e);
        if e > s {
            assert(t[e - 1] == a[e - 1]);
        }
        assert(crate::text::line_at(t, s, e) =~= crate::text::line_at(a, s, e));
        lemma_lines_append(a, b, e + 1);
        assert(lines_from(t, s) =~= lines_from(a, s) + lines(b));
    }
}

/// A line made of a marker that starts with a non-blank character, and
/// anything after it, is a line of that marker.
pub proof fn lemma_marker_line(m: Seq<char>, rest: Seq<char>)
    requires
        m.len() > 0,
        !crate::text::is_ws(m[0]),
    ensures
        is_marker(m + rest, m),
{
    let l = m + rest;
    crate::text::lemma_skip_ws(l, 0);
    assert(l[0] == m[0]);
    assert(crate::text::skip_ws(l, 0) == 0);
    assert(trim_start(l) =~= l);
    assert(l.subrange(0, m.len() as int) =~= m);
}

/// From `i` on, the first line of marker `m` is line `k` (or there is none
/// where `k` is the end).
pub proof fn lemma_scan_to_is(ls: Seq<Seq<char>>, i: int, k: int, m: Seq<char>)
    requires
        0 <= i <= k <= ls.len(),
        forall|j: int| i <= j < k ==> !is_marker(#[trigger] ls[j], m),
        k < ls.len() ==> is_marker(ls[k], m),
    ensures
        scan_to(ls, i, m) == k,
    decreases k - i,
{
    if i < k {
        lemma_scan_to_is(ls, i + 1, k, m);
    }
}

/// One conflict block resolves to the side chosen for it: `current` gives
/// exactly its current lines, `incoming` exactly its incoming lines,
/// `both` the current lines and then the incoming ones, and any other
/// choice keeps the block as it stands. (Lines are taken without a final
/// `'\r'`, which the line reader would drop.)
pub proof fn law_block_takes_its_side(
    head: Seq<char>,
    cur: Seq<Seq<char>>,
    inc: Seq<Seq<char>>,
    tail: Seq<char>,
    choice: Seq<char>,
)
    requires
        !head.contains('\n') && (head.len() == 0 || head.last() != '\r'),
        !tail.contains('\n') && (tail.len() == 0 || tail.last() != '\r'),
        forall|j: int|
            0 <= j < cur.len() ==> !(#[trigger] cur[j]).contains('\n') && !is_marker(
                cur[j],
                sep_marker(),
            ) && (cur[j].len() == 0 || cur[j].last() != '\r'),
        forall|j: int|
            0 <= j < inc.len() ==> !(#[trigger] inc[j]).contains('\n') && !is_marker(
                inc[j],
                close_marker(),
            ) && (inc[j].len() == 0 || inc[j].last() != '\r'),
    ensures
        ({
            let block = seq!["<<<<<<< "@ + head] + cur + seq!["======="@] + inc + seq![
                ">>>>>>> "@ + tail,
            ];
            let text = join_lines(block);
            resolved(text, seq![choice]) == if choice == "current"@ {
                join_lines(cur)
            } else if choice == "incoming"@ {
                join_lines(inc)
            } else if choice == "both"@ {
                join_lines(cur) + join_lines(inc)
            } else {
                text
            }
        }),
{
    reveal_strlit("<<<<<<< ");
    reveal_strlit("=======");
    reveal_strlit(">>>>>>> ");
    let o = "<<<<<<< "@ + head;
    let c = ">>>>>>> "@ + tail;
    let sep = "======="@;
    let block = seq![o] + cur + seq![sep] + inc + seq![c];
    let nc = cur.len() as int;
    let ni = inc.len() as int;
    assert(block.len() == nc + ni + 3);
    assert(block[0] == o);
    assert(block[nc + 1] == sep);
    assert(block[nc + ni + 2] == c);
    assert forall|j: int| 0 <= j < nc implies block[1 + j] == cur[j] by {}
    assert forall|j: int| 0 <= j < ni implies block[nc + 2 + j] == inc[j] by {}
    // The block's lines read back as themselves.
    assert forall|k: int| 0 <= k < block.len() implies !(#[trigger] block[k]).contains('\n') && (
    block[k].len() == 0 || block[k].last() != '\r') by {
        if k == 0 {
            if o.contains('\n') {
                let j = choose|j: int| 0 <= j < o.len() && o[j] == '\n';
                if j >= 8 {
                    assert(o[j] == head[j - 8]);
                }
            }
        } else if k <= nc {
            assert(block[k] == cur[k - 1]);
        } else if k == nc + 1 {
        } else if k <= nc + ni + 1 {
            assert(block[k] == inc[k - nc - 2]);
        } else {
            if c.contains('\n') {
                let j = choose|j: int| 0 <= j < c.len() && c[j] == '\n';
                if j >= 8 {
                    assert(c[j] == tail[j - 8]);
                }
            }
        }
    }
    lemma_lines_of_join(block);
    let ls = lines(join_lines(block));
    assert(ls =~= block);
    // Its structure.
    lemma_marker_line("<<<<<<< "@, head);
    lemma_marker_line("======="@, seq![]);
    assert("======="@ + Seq::<char>::empty() =~= "======="@);
    lemma_marker_line(">>>>>>> "@, tail);
    lemma_scan_to_is(ls, 1, nc + 1, sep_marker());
    assert(block_sep(ls, 0) == nc + 1);
    assert(block_inc(ls, 0) == nc + 2);
    lemma_scan_to_is(ls, nc + 2, nc + ni + 2, close_marker());
    assert(block_close(ls, 0) == nc + ni + 2);
    assert(block_next(ls, 0) == ls.len());
    assert(ls.subrange(1, nc + 1) =~= cur);
    assert(ls.subrange(nc + 2, nc + ni + 2) =~= inc);
    assert(ls.subrange(0, ls.len() as int) =~= ls);
    assert(is_marker(ls[0], open_marker()));
    assert(resolved_from(ls, ls.len() as int, seq![choice], 1) =~= Seq::<char>::empty());
    assert(resolved_from(ls, 0, seq![choice], 0) =~= block_text(ls, 0, seq![choice], 0));
}

/// Each conflict block is resolved by its own choice: a text whose blocks
/// all close within it and that ends a line, followed by more text,
/// resolves as the two apart, the blocks that follow taking the choices
/// after one choice for each block of the first text.
pub proof fn law_resolution_block_by_block(
    a: Seq<char>,
    b: Seq<char>,
    path: Seq<char>,
    choices: Seq<Seq<char>>,
)
    requires
        a.len() == 0 || a.last() == '\n',
        resolvable(a, seq![]),
    ensures
        resolved(a + b, choices) == resolved(a, choices) + resolved(
            b,
            later_choices(choices, conflicts_of(a, path).regions.len() as int),
        ),
{
    let la = lines(a);
    let lb = lines(b);
    lemma_lines_append(a, b, 0);
    assert(lines(a + b) == la + lb);
    lemma_resolved_split(la, lb, 0, choices, 0, 0);
    let k = regions_from(la, 0).len() as int;
    lemma_resolved_offset(lb, 0, choices, 0, k);
    assert(0 + k == k);
}

// ---------------------------------------------------------------------
// Parsing and resolving
// ---------------------------------------------------------------------

fn line_of<'a>(t: &'a [char], spans: &Vec<(usize, usize)>, i: usize) -> (r: &'a [char])
    requires
        spans_are(t@, spans@, lines(t@)),
        i < spans@.len(),
    ensures
        r@ == lines(t@)[i as int],
{
    let (a, b) = spans[i];
    slice_subrange(t, a, b)
}

fn marker_at(t: &[char], spans: &Vec<(usize, usize)>, i: usize, m: &[char]) -> (r: bool)
    requires
        spans_are(t@, spans@, lines(t@)),
        i < spans@.len(),
    ensures
        r == is_marker(lines(t@)[i as int], m@),
{
    let l = line_of(t, spans, i);
    let a = trim_start_at(l);
    has_prefix(slice_subrange(l, a, l.len()), m)
}

fn scan(t: &[char], spans: &Vec<(usize, usize)>, from: usize, m: &[char]) -> (r: usize)
    requires
        spans_are(t@, spans@, lines(t@)),
        from <= spans@.len(),
    ensures
        r as int == scan_to(lines(t@), from as int, m@),
        from <= r <= spans@.len(),
{
    let mut i = from;
    while i < spans.len() && !marker_at(t, spans, i, m)
        invariant
            from <= i <= spans@.len(),
            spans_are(t@, spans@, lines(t@)),
            scan_to(lines(t@), from as int, m@) == scan_to(lines(t@), i as int, m@),
        decreases spans@.len() - i,
    {
        i = i + 1;
    }
    i
}

fn header_of(l: &[char], m: &[char]) -> (r: String)
    requires
        m@.len() > 0,
    ensures
        r@ == trim_start_matches(trim_start(l@), m@),
{
    let a = trim_start_at(l);
    let ts = slice_subrange(l, a, l.len());
    let b = strip_all(ts, m);
    string_of(slice_subrange(ts, b, ts.len()))
}

fn collect_lines(t: &[char], spans: &Vec<(usize, usize)>, a: usize, b: usize) -> (r: Vec<String>)
    requires
        spans_are(t@, spans@, lines(t@)),
        a <= b <= spans@.len(),
    ensures
        strings_view(r@) == lines(t@).subrange(a as int, b as int),
{
    let mut r: Vec<String> = Vec::new();
    let mut i = a;
    while i < b
        invariant
            a <= i <= b <= spans@.len(),
            spans_are(t@, spans@, lines(t@)),
            strings_view(r@) =~= lines(t@).subrange(a as int, i as int),
        decreases b - i,
    {
        let l = line_of(t, spans, i);
        let ghost before = r@;
        let sl = string_of(l);
        r.push(sl);
        assert(strings_view(r@) =~= strings_view(before).push(sl@));
        assert(lines(t@).subrange(a as int, i + 1) =~= lines(t@).subrange(a as int, i as int).push(
            lines(t@)[i as int],
        ));
        i = i + 1;
    }
    r
}

fn push_lines(out: &mut Vec<char>, t: &[char], spans: &Vec<(usize, usize)>, a: usize, b: usize)
    requires
        spans_are(t@, spans@, lines(t@)),
        a <= b <= spans@.len(),
    ensures
        final(out)@ == old(out)@ + join_lines(lines(t@).subrange(a as int, b as int)),
{
    let mut i = a;
    while i < b
        invariant
            a <= i <= b <= spans@.len(),
            spans_are(t@, spans@, lines(t@)),
            out@ == old(out)@ + join_lines(lines(t@).subrange(a as int, i as int)),
        decreases b - i,
    {
        let l = line_of(t, spans, i);
        crate::text::push_all(out, l);
        out.push('\n');
        proof {
            let ls = lines(t@);
            assert(ls.subrange(a as int, i + 1).drop_last() =~= ls.subrange(a as int, i as int));
            assert(ls.subrange(a as int, i + 1).last() == ls[i as int]);
            assert(out@ =~= old(out)@ + join_lines(ls.subrange(a as int, i + 1)));
        }
        i = i + 1;
    }
}

/// Finds the conflict blocks (`<<<<<<< `, `=======`, `>>>>>>> `) of a
/// file's content.
pub fn parse_conflicts(content: &str, path: &str) -> (r: ConflictFile)
    ensures
        r@ == conflicts_of(content@, path@),
{
    let text = chars_of(content);
    let t = text.as_slice();
    let spans = line_spans(t);
    let open = chars_of("<<<<<<< ");
    let sep = chars_of("=======");
    let close = chars_of(">>>>>>> ");
    let ghost ls = lines(t@);
    proof {
        reveal_strlit("<<<<<<< ");
        reveal_strlit(">>>>>>> ");
    }
    let n = spans.len();
    let mut regions: Vec<ConflictRegion> = Vec::new();
    let mut i: usize = 0;
    while i < n
        invariant
            i <= n == spans@.len(),
            ls == lines(t@),
            spans_are(t@, spans@, ls),
            open@ == open_marker(),
            sep@ == sep_marker(),
            close@ == close_marker(),
            open@.len() > 0,
            close@.len() > 0,
            regions_view(regions@) + regions_from(ls, i as int) == regions_from(ls, 0),
        decreases n - i,
    {
        if marker_at(t, &spans, i, open.as_slice()) {
            proof {
                lemma_block(ls, i as int);
            }
            let j = scan(t, &spans, i + 1, sep.as_slice());
            let k0 = if j < n {
                j + 1
            } else {
                j
            };
            let k = scan(t, &spans, k0, close.as_slice());
            let current_header = header_of(line_of(t, &spans, i), open.as_slice());
            let current_lines = collect_lines(t, &spans, i + 1, j);
            let incoming_lines = collect_lines(t, &spans, k0, k);
            let incoming_header = if k < n {
                header_of(line_of(t, &spans, k), close.as_slice())
            } else {
                String::new()
            };
            let next = if k < n {
                k + 1
            } else {
                k
            };
            let region = ConflictRegion {
                current_header,
                current_lines,
                incoming_header,
                incoming_lines,
            };
            proof {
                assert(region@ == region_at(ls, i as int));
                assert(regions_from(ls, i as int) == seq![region_at(ls, i as int)] + regions_from(
                    ls,
                    next as int,
                ));
                assert(regions_view(regions@.push(region)) =~= regions_view(regions@).push(region@));
                assert(regions_view(regions@).push(region@) + regions_from(ls, next as int)
                    =~= regions_view(regions@) + regions_from(ls, i as int));
            }
            regions.push(region);
            i = next;
        } else {
            i = i + 1;
        }
    }
    assert(regions_view(regions@) =~= regions_from(ls, 0));
    let has_conflicts = regions.len() > 0;
    let pc = chars_of(path);
    ConflictFile {
        path: string_of(pc.as_slice()),
        regions,
        has_conflicts,
        original_content: string_of(t),
    }
}

fn is_choice(choices: &[String], n: usize, c: &[char]) -> (r: bool)
    ensures
        r == choice_is(strings_view(choices@), n as int, c@),
{
    if n < choices.len() {
        let cc = chars_of(choices[n].as_str());
        same_chars(cc.as_slice(), c)
    } else {
        false
    }
}

/// Whether `resolve_conflicts` can replay every block that `choices`
/// leaves unresolved: those must be closed.
pub fn conflicts_resolvable(content: &str, choices: &[String]) -> (r: bool)
    ensures
        r == resolvable(content@, strings_view(choices@)),
{
    let text = chars_of(content);
    let t = text.as_slice();
    let spans = line_spans(t);
    let open = chars_of("<<<<<<< ");
    let sep = chars_of("=======");
    let close = chars_of(">>>>>>> ");
    let cur = chars_of("current");
    let inc = chars_of("incoming");
    let both = chars_of("both");
    let ghost ls = lines(t@);
    let ghost ch = strings_view(choices@);
    let n = spans.len();
    let mut i: usize = 0;
    let mut idx: usize = 0;
    while i < n
        invariant
            i <= n == spans@.len(),
            idx <= i,
            ls == lines(t@),
            spans_are(t@, spans@, ls),
            open@ == open_marker(),
            sep@ == sep_marker(),
            close@ == close_marker(),
            cur@ == "current"@,
            inc@ == "incoming"@,
            both@ == "both"@,
            ch == strings_view(choices@),
            resolvable(content@, ch) == resolvable_from(ls, i as int, ch, idx as int),
            t@ == content@,
        decreases n - i,
    {
        if marker_at(t, &spans, i, open.as_slice()) {
            proof {
                lemma_block(ls, i as int);
            }
            let j = scan(t, &spans, i + 1, sep.as_slice());
            let k0 = if j < n {
                j + 1
            } else {
                j
            };
            let k = scan(t, &spans, k0, close.as_slice());
            let ok = k < n || is_choice(choices, idx, cur.as_slice()) || is_choice(
                choices,
                idx,
                inc.as_slice(),
            ) || is_choice(choices, idx, both.as_slice());
            if !ok {
                return false;
            }
            i = if k < n {
                k + 1
            } else {
                k
            };
            idx = idx + 1;
        } else {
            i = i + 1;
        }
    }
    true
}

#[verifier::rlimit(60)]
/// Rewrites `content` with conflict block `n` replaced as `choices[n]`
/// says: `"current"`, `"incoming"` or `"both"` sides; any other choice,
/// or none, keeps the block with its markers.
pub fn resolve_conflicts(content: &str, choices: &[String]) -> (r: Option<String>)
    requires
        resolvable(content@, strings_view(choices@)),
    ensures
        r matches Some(s) && s@ == resolved(content@, strings_view(choices@)),
{
    let text = chars_of(content);
    let t = text.as_slice();
    let spans = line_spans(t);
    let open = chars_of("<<<<<<< ");
    let sep = chars_of("=======");
    let close = chars_of(">>>>>>> ");
    let cur = chars_of("current");
    let inc = chars_of("incoming");
    let both = chars_of("both");
    let ghost ls = lines(t@);
    let ghost ch = strings_view(choices@);
    let n = spans.len();
    let mut out: Vec<char> = Vec::new();
    let mut i: usize = 0;
    let mut idx: usize = 0;
    while i < n
        invariant
            i <= n == spans@.len(),
            idx <= i,
            ls == lines(t@),
            t@ == content@,
            spans_are(t@, spans@, ls),
            open@ == open_marker(),
            sep@ == sep_marker(),
            close@ == close_marker(),
            cur@ == "current"@,
            inc@ == "incoming"@,
            both@ == "both"@,
            ch == strings_view(choices@),
            resolvable_from(ls, i as int, ch, idx as int),
            out@ + resolved_from(ls, i as int, ch, idx as int) == resolved_from(ls, 0, ch, 0),
        decreases n - i,
    {
        let ghost before = out@;
        if marker_at(t, &spans, i, open.as_slice()) {
            proof {
                lemma_block(ls, i as int);
            }
            let j = scan(t, &spans, i + 1, sep.as_slice());
            let k0 = if j < n {
                j + 1
            } else {
                j
            };
            let k = scan(t, &spans, k0, close.as_slice());
            if is_choice(choices, idx, cur.as_slice()) {
                push_lines(&mut out, t, &spans, i + 1, j);
            } else if is_choice(choices, idx, inc.as_slice()) {
                push_lines(&mut out, t, &spans, k0, k);
            } else if is_choice(choices, idx, both.as_slice()) {
                push_lines(&mut out, t, &spans, i + 1, j);
                push_lines(&mut out, t, &spans, k0, k);
                assert(out@ =~= before + (join_lines(ls.subrange(i + 1, j as int)) + join_lines(
                    ls.subrange(k0 as int, k as int),
                )));
            } else {
                push_lines(&mut out, t, &spans, i, k + 1);
            }
            let next = if k < n {
                k + 1
            } else {
                k
            };
            proof {
                assert(out@ == before + block_text(ls, i as int, ch, idx as int));
                assert(resolved_from(ls, i as int, ch, idx as int) == block_text(
                    ls,
                    i as int,
                    ch,
                    idx as int,
                ) + resolved_from(ls, next as int, ch, idx + 1));
                assert(out@ + resolved_from(ls, next as int, ch, idx + 1) =~= before
                    + resolved_from(ls, i as int, ch, idx as int));
            }
            i = next;
            idx = idx + 1;
        } else {
            let l = line_of(t, &spans, i);
            crate::text::push_all(&mut out, l);
            out.push('\n');
            proof {
                assert(out@ + resolved_from(ls, i + 1, ch, idx as int) =~= before + resolved_from(
                    ls,
                    i as int,
                    ch,
                    idx as int,
                ));
            }
            i = i + 1;
        }
    }
    assert(out@ =~= resolved_from(ls, 0, ch, 0));
    Some(string_of(out.as_slice()))
}


// ---------------------------------------------------------------------
// Paths of the explorer
// ---------------------------------------------------------------------

/// `rel` has a `..` component.
pub open spec fn has_parent_segment(rel: Seq<char>) -> bool {
    split(rel, seq!['/']).contains(".."@)
}

/// A path that the explorer may touch: non-empty and never climbing out of
/// the repository.
pub open spec fn usable_path(rel: Seq<char>) -> bool {
    rel.len() > 0 && !has_parent_segment(rel)
}

fn parent_segment(rel: &[char]) -> (r: bool)
    ensures
        r == has_parent_segment(rel@),
{
    let slash: Vec<char> = vec!['/'];
    assert(slash@ =~= seq!['/']);
    let dots = chars_of("..");
    let parts = split_spans(rel, slash.as_slice());
    let ghost ps = split(rel@, seq!['/']);
    let mut i: usize = 0;
    while i < parts.len()
        invariant
            i <= parts@.len(),
            dots@ == ".."@,
            ps == split(rel@, seq!['/']),
            spans_are(rel@, parts@, ps),
            forall|k: int| 0 <= k < i ==> ps[k] != ".."@,
        decreases parts.len() - i,
    {
        let (a, b) = parts[i];
        if same_chars(slice_subrange(rel, a, b), dots.as_slice()) {
            assert(ps[i as int] == ".."@);
            assert(ps.contains(".."@));
            return true;
        }
        i = i + 1;
    }
    false
}

fn invalid_path() -> (e: GitError)
    ensures
        e matches GitError::Failed { code: None, stderr: m } && m@ == "invalid path"@,
{
    let m = chars_of("invalid path");
    GitError::Failed { code: None, stderr: string_of(m.as_slice()) }
}

/// `rel` where the explorer may touch it, else the `invalid path` error.
pub fn checked_relative(rel: String) -> (r: Result<String, GitError>)
    ensures
        usable_path(rel@) ==> r == Ok::<String, GitError>(rel),
        !usable_path(rel@) ==> (r matches Err(GitError::Failed { code: None, stderr: m }) && m@
            == "invalid path"@),
{
    let c = chars_of(rel.as_str());
    if c.len() == 0 || parent_segment(c.as_slice()) {
        Err(invalid_path())
    } else {
        Ok(rel)
    }
}

/// The relative path that an explorer operation on `path` touches, or the
/// `invalid path` error.
pub fn resolve(repo: &str, path: &str) -> (r: Result<String, GitError>)
    ensures
        !may_be_absolute(path@) ==> {
            let rel = replace_char(path@, '\\', '/');
            &&& usable_path(rel) ==> (r matches Ok(p) && p@ == rel)
            &&& !usable_path(rel) ==> (r matches Err(GitError::Failed { code: None, stderr: m })
                && m@ == "invalid path"@)
        },
        exists|rel: Seq<char>|
            {
                &&& relativizes(rel, repo@, path@)
                &&& usable_path(rel) ==> (r matches Ok(p) && p@ == rel)
                &&& !usable_path(rel) ==> (r matches Err(GitError::Failed { code: None, stderr: m })
                    && m@ == "invalid path"@)
            },
{
    let rel = to_repo_relative(repo, path);
    let ghost rv = rel@;
    checked_relative(rel)
}

/// The directory that a listing shows: the repository itself (`None`)
/// unless a non-empty `dir` is given, which must not climb out.
pub fn list_target(repo: &str, dir: Option<&str>) -> (r: Result<Option<String>, GitError>)
    ensures
        match dir {
            Some(d) => d@.len() > 0 && !may_be_absolute(d@) ==> {
                let rel = replace_char(d@, '\\', '/');
                &&& !has_parent_segment(rel) ==> (r matches Ok(Some(p)) && p@ == rel)
                &&& has_parent_segment(rel) ==> (r matches Err(GitError::Failed {
                    code: None,
                    stderr: m,
                }) && m@ == "invalid path"@)
            },
            None => true,
        },
        match dir {
            Some(d) => if d@.len() == 0 {
                r matches Ok(None)
            } else {
                exists|rel: Seq<char>|
                    {
                        &&& relativizes(rel, repo@, d@)
                        &&& !has_parent_segment(rel) ==> (r matches Ok(Some(p)) && p@ == rel)
                        &&& has_parent_segment(rel) ==> (r matches Err(GitError::Failed {
                            code: None,
                            stderr: m,
                        }) && m@ == "invalid path"@)
                    }
            },
            None => r matches Ok(None),
        },
{
    match dir {
        Some(d) => {
            let dc = chars_of(d);
            if dc.len() == 0 {
                return Ok(None);
            }
            let rel = to_repo_relative(repo, d);
            let rc = chars_of(rel.as_str());
            if parent_segment(rc.as_slice()) {
                Err(invalid_path())
            } else {
                Ok(Some(rel))
            }
        },
        None => Ok(None),
    }
}

/// The error of an explorer operation, with message `m`.
pub open spec fn explorer_error(r: Result<(), GitError>, m: Seq<char>) -> bool {
    r matches Err(GitError::Failed { code: None, stderr: e }) && e@ == m
}

fn failed_with(m: &str) -> (e: GitError)
    ensures
        e matches GitError::Failed { code: None, stderr: s } && s@ == m@,
{
    let c = chars_of(m);
    GitError::Failed { code: None, stderr: string_of(c.as_slice()) }
}

/// A listing needs a directory.
pub fn listing_check(is_dir: bool) -> (r: Result<(), GitError>)
    ensures
        is_dir ==> r is Ok,
        !is_dir ==> explorer_error(r, "not a directory"@),
{
    if is_dir {
        Ok(())
    } else {
        Err(failed_with("not a directory"))
    }
}

/// A new file or directory needs a free path.
pub fn create_check(exists: bool) -> (r: Result<(), GitError>)
    ensures
        !exists ==> r is Ok,
        exists ==> explorer_error(r, "already exists"@),
{
    if exists {
        Err(failed_with("already exists"))
    } else {
        Ok(())
    }
}

/// A rename needs its source and a free destination; a missing source is
/// reported first.
pub fn rename_check(source_exists: bool, destination_exists: bool) -> (r: Result<(), GitError>)
    ensures
        !source_exists ==> explorer_error(r, "source not found"@),
        source_exists && destination_exists ==> explorer_error(r, "destination already exists"@),
        source_exists && !destination_exists ==> r is Ok,
{
    if !source_exists {
        Err(failed_with("source not found"))
    } else if destination_exists {
        Err(failed_with("destination already exists"))
    } else {
        Ok(())
    }
}

/// A deletion needs something to delete.
pub fn delete_check(exists: bool) -> (r: Result<(), GitError>)
    ensures
        exists ==> r is Ok,
        !exists ==> explorer_error(r, "not found"@),
{
    if exists {
        Ok(())
    } else {
        Err(failed_with("not found"))
    }
}

/// One directory item as the explorer lists it: `.git` and symbolic links
/// are left out, and so is anything that is neither a directory nor a
/// file. `stripped` is the item's path under the repository where it
/// could be had (its `\` become `/`), else the item's name is used.
pub open spec fn tree_entry_of(
    name: Seq<char>,
    stripped: Option<Seq<char>>,
    is_symlink: bool,
    is_dir: bool,
    is_file: bool,
    size: u64,
) -> Option<(Seq<char>, Seq<char>, u64)> {
    let path = match stripped {
        Some(p) => crate::text::replace_char(p, '\\', '/'),
        None => name,
    };
    if name == ".git"@ || is_symlink {
        None
    } else if is_dir {
        Some((path, "dir"@, 0))
    } else if is_file {
        Some((path, "file"@, size))
    } else {
        None
    }
}

/// The explorer lists every directory and every file except `.git` and
/// symbolic links (dot-files included): a directory with size 0, a file
/// with its size, under its path in the repository with `/` separators
/// where that is known, else under its name.
pub proof fn law_listing_keeps_all_but_git(
    name: Seq<char>,
    stripped: Option<Seq<char>>,
    is_symlink: bool,
    is_dir: bool,
    is_file: bool,
    size: u64,
)
    ensures
        ({
            let e = tree_entry_of(name, stripped, is_symlink, is_dir, is_file, size);
            &&& e is Some <==> (name != ".git"@ && !is_symlink && (is_dir || is_file))
            &&& e matches Some(f) ==> {
                &&& f.1 == (if is_dir { "dir"@ } else { "file"@ })
                &&& f.2 == (if is_dir { 0u64 } else { size })
                &&& f.0 == match stripped {
                    Some(p) => crate::text::replace_char(p, '\\', '/'),
                    None => name,
                }
            }
        }),
{
}

pub open spec fn entry_fields(e: TreeEntry) -> (Seq<char>, Seq<char>, u64) {
    (e.path@, e.kind@, e.size)
}

/// The listing entry of one directory item, if it is listed.
pub fn tree_entry(
    name: &str,
    stripped: Option<String>,
    is_symlink: bool,
    is_dir: bool,
    is_file: bool,
    size: u64,
) -> (r: Option<TreeEntry>)
    ensures
        match tree_entry_of(
            name@,
            match stripped {
                Some(p) => Some(p@),
                None => None,
            },
            is_symlink,
            is_dir,
            is_file,
            size,
        ) {
            Some(f) => r matches Some(e) && entry_fields(e) == f,
            None => r is None,
        },
{
    let nc = chars_of(name);
    let git = chars_of(".git");
    if same_chars(nc.as_slice(), git.as_slice()) || is_symlink {
        return None;
    }
    let path = match stripped {
        Some(p) => {
            let pc = chars_of(p.as_str());
            let out = replace_chars(pc.as_slice(), '\\', '/');
            string_of(out.as_slice())
        },
        None => string_of(nc.as_slice()),
    };
    if is_dir {
        let k = chars_of("dir");
        Some(TreeEntry { path, kind: string_of(k.as_slice()), size: 0 })
    } else if is_file {
        let k = chars_of("file");
        Some(TreeEntry { path, kind: string_of(k.as_slice()), size })
    } else {
        None
    }
}

/// The listing order: by kind (`"dir"` before `"file"`), then by path.
pub open spec fn entry_before(a: (Seq<char>, Seq<char>, u64), b: (Seq<char>, Seq<char>, u64)) -> bool {
    if a.1 != b.1 {
        seq_lt(a.1, b.1)
    } else {
        seq_lt(a.0, b.0)
    }
}

pub open spec fn entry_slot(s: Seq<(Seq<char>, Seq<char>, u64)>, x: (Seq<char>, Seq<char>, u64), i: int) -> int
    decreases s.len() - i,
{
    if i < 0 || i >= s.len() {
        s.len() as int
    } else if entry_before(x, s[i]) {
        i
    } else {
        entry_slot(s, x, i + 1)
    }
}

/// The entries in listing order; entries that tie keep their order (a
/// stable sort).
pub open spec fn sorted_entries(s: Seq<(Seq<char>, Seq<char>, u64)>) -> Seq<(Seq<char>, Seq<char>, u64)>
    decreases s.len(),
{
    if s.len() == 0 {
        seq![]
    } else {
        let rest = sorted_entries(s.drop_last());
        rest.insert(entry_slot(rest, s.last(), 0), s.last())
    }
}

pub proof fn lemma_entry_before_order(
    a: (Seq<char>, Seq<char>, u64),
    b: (Seq<char>, Seq<char>, u64),
    c: (Seq<char>, Seq<char>, u64),
)
    ensures
        !entry_before(a, a),
        entry_before(a, b) && entry_before(b, c) ==> entry_before(a, c),
{
    crate::git::ops::lemma_seq_lt_irreflexive(a.0);
    crate::git::ops::lemma_seq_lt_irreflexive(a.1);
    if entry_before(a, b) && entry_before(b, c) {
        if a.1 == b.1 && b.1 == c.1 {
            crate::git::ops::lemma_seq_lt_transitive(a.0, b.0, c.0);
        } else if a.1 != b.1 && b.1 != c.1 {
            crate::git::ops::lemma_seq_lt_transitive(a.1, b.1, c.1);
            if a.1 == c.1 {
                crate::git::ops::lemma_seq_lt_transitive(a.1, b.1, a.1);
            }
        }
    }
}

/// Where `x` goes: no entry before the slot comes after `x`, and the entry
/// at the slot (if any) does.
pub proof fn lemma_entry_slot(s: Seq<(Seq<char>, Seq<char>, u64)>, x: (Seq<char>, Seq<char>, u64), i: int)
    requires
        0 <= i <= s.len(),
    ensures
        i <= entry_slot(s, x, i) <= s.len(),
        forall|k: int| i <= k < entry_slot(s, x, i) ==> !entry_before(x, #[trigger] s[k]),
        entry_slot(s, x, i) < s.len() ==> entry_before(x, s[entry_slot(s, x, i)]),
    decreases s.len() - i,
{
    if i < s.len() && !entry_before(x, s[i]) {
        lemma_entry_slot(s, x, i + 1);
    }
}

/// No entry of `s` comes before one that precedes it.
pub open spec fn entries_in_order(s: Seq<(Seq<char>, Seq<char>, u64)>) -> bool {
    forall|i: int, j: int|
        0 <= i < j < s.len() ==> !entry_before(#[trigger] s[j], #[trigger] s[i])
}

pub proof fn lemma_entry_insert_in_order(s: Seq<(Seq<char>, Seq<char>, u64)>, x: (Seq<char>, Seq<char>, u64))
    requires
        entries_in_order(s),
    ensures
        entries_in_order(s.insert(entry_slot(s, x, 0), x)),
{
    let p = entry_slot(s, x, 0);
    lemma_entry_slot(s, x, 0);
    let r = s.insert(p, x);
    assert forall|i: int, j: int| 0 <= i < j < r.len() implies !entry_before(
        #[trigger] r[j],
        #[trigger] r[i],
    ) by {
        if i == p {
            let y = s[j - 1];
            lemma_entry_before_order(y, x, s[p]);
            lemma_entry_before_order(s[p], x, s[p]);
            if j - 1 > p {
                assert(!entry_before(s[j - 1], s[p]));
            }
        } else if j == p {
            assert(r[i] == s[i]);
        } else if j < p {
            assert(r[i] == s[i] && r[j] == s[j]);
        } else if i < p {
            assert(r[i] == s[i] && r[j] == s[j - 1]);
        } else {
            assert(r[i] == s[i - 1] && r[j] == s[j - 1]);
        }
    }
}

/// The explorer lists directories before files and each group by path,
/// and lists exactly the entries it found, each as often as it was found.
pub proof fn law_listing_in_order(s: Seq<(Seq<char>, Seq<char>, u64)>)
    ensures
        entries_in_order(sorted_entries(s)),
        sorted_entries(s).to_multiset() == s.to_multiset(),
    decreases s.len(),
{
    broadcast use vstd::seq_lib::to_multiset_insert, vstd::seq_lib::to_multiset_build;

    if s.len() == 0 {
        assert(sorted_entries(s) =~= s);
    } else {
        law_listing_in_order(s.drop_last());
        let rest = sorted_entries(s.drop_last());
        lemma_entry_slot(rest, s.last(), 0);
        lemma_entry_insert_in_order(rest, s.last());
        assert(s.drop_last().push(s.last()) =~= s);
    }
}

/// The listing entries as `(path, kind, size)`.
pub open spec fn entries_fields(v: Seq<TreeEntry>) -> Seq<(Seq<char>, Seq<char>, u64)> {
    v.map_values(|e: TreeEntry| entry_fields(e))
}

fn is_entry_before(a: &TreeEntry, b: &TreeEntry) -> (r: bool)
    ensures
        r == entry_before(entry_fields(*a), entry_fields(*b)),
{
    let ak = chars_of(a.kind.as_str());
    let bk = chars_of(b.kind.as_str());
    if !same_chars(ak.as_slice(), bk.as_slice()) {
        crate::git::ops::chars_lt(ak.as_slice(), bk.as_slice())
    } else {
        let ap = chars_of(a.path.as_str());
        let bp = chars_of(b.path.as_str());
        crate::git::ops::chars_lt(ap.as_slice(), bp.as_slice())
    }
}

/// Sorts listing entries: directories first, then by path (stable).
pub fn sort_entries(v: Vec<TreeEntry>) -> (r: Vec<TreeEntry>)
    ensures
        entries_fields(r@) == sorted_entries(entries_fields(v@)),
{
    let ghost ev = entries_fields(v@);
    let n = v.len();
    let mut rest = v;
    let mut r: Vec<TreeEntry> = Vec::new();
    let mut i: usize = 0;
    while i < n
        invariant
            i <= n == ev.len(),
            entries_fields(rest@) == ev.skip(i as int),
            entries_fields(r@) == sorted_entries(ev.take(i as int)),
        decreases n - i,
    {
        let ghost old_rest = rest@;
        assert(entries_fields(old_rest).len() > 0);
        assert(entries_fields(old_rest)[0] == entry_fields(old_rest[0]));
        assert(ev.skip(i as int)[0] == ev[i as int]);
        let x = rest.remove(0);
        assert(entry_fields(x) == ev[i as int]);
        assert(rest@ =~= old_rest.remove(0));
        assert forall|k: int| 0 <= k < rest@.len() implies entries_fields(rest@)[k] == ev.skip(
            i + 1,
        )[k] by {
            assert(rest@[k] == old_rest[k + 1]);
            assert(entries_fields(old_rest)[k + 1] == entry_fields(old_rest[k + 1]));
            assert(ev.skip(i as int)[k + 1] == ev[i + 1 + k]);
        }
        assert(entries_fields(rest@) =~= ev.skip(i + 1));
        let mut p: usize = 0;
        while p < r.len() && !is_entry_before(&x, &r[p])
            invariant
                p <= r@.len(),
                entry_slot(entries_fields(r@), entry_fields(x), 0) == entry_slot(
                    entries_fields(r@),
                    entry_fields(x),
                    p as int,
                ),
            decreases r@.len() - p,
        {
            p = p + 1;
        }
        let ghost before = r@;
        assert(ev.take(i + 1).drop_last() =~= ev.take(i as int));
        assert(ev.take(i + 1).last() == entry_fields(x));
        r.insert(p, x);
        assert(entries_fields(r@) =~= entries_fields(before).insert(p as int, entry_fields(x)));
        i = i + 1;
    }
    assert(ev.take(n as int) =~= ev);
    r
}

// ---------------------------------------------------------------------
// File previews
// ---------------------------------------------------------------------

/// What `String::from_utf8_lossy` makes of some bytes.
pub uninterp spec fn lossy_text(b: Seq<u8>) -> Seq<char>;

/// Wraps `String::from_utf8_lossy`: the text of the bytes, each invalid
/// sequence replaced by U+FFFD; valid UTF-8 comes back as the text it
/// encodes.
#[verifier::external_body]
pub(crate) fn utf8_lossy(b: &[u8]) -> (r: String)
    ensures
        r@ == lossy_text(b@),
        vstd::utf8::valid_utf8(b@) ==> r@ == vstd::utf8::decode_utf8(b@),
{
    String::from_utf8_lossy(b).into_owned()
}

/// The path that a preview reads, or the `invalid path` error where it
/// holds `..` anywhere.
pub fn read_target(repo: &str, path: &str) -> (r: Result<String, GitError>)
    ensures
        !may_be_absolute(path@) ==> {
            let rel = replace_char(path@, '\\', '/');
            &&& !contains(rel, ".."@) ==> (r matches Ok(p) && p@ == rel)
            &&& contains(rel, ".."@) ==> (r matches Err(GitError::Failed { code: None, stderr: m })
                && m@ == "invalid path"@)
        },
        exists|rel: Seq<char>|
            {
                &&& relativizes(rel, repo@, path@)
                &&& !contains(rel, ".."@) ==> (r matches Ok(p) && p@ == rel)
                &&& contains(rel, ".."@) ==> (r matches Err(GitError::Failed {
                    code: None,
                    stderr: m,
                }) && m@ == "invalid path"@)
            },
{
    let rel = to_repo_relative(repo, path);
    let rc = chars_of(rel.as_str());
    let dots = chars_of("..");
    if has_substring(rc.as_slice(), dots.as_slice()) {
        Err(invalid_path())
    } else {
        Ok(rel)
    }
}

/// The error for a preview of something that is not a file.
pub fn not_a_file(rel: &str) -> (e: GitError)
    ensures
        e matches GitError::Failed { code: None, stderr: m } && m@ == "not a file: "@ + rel@,
{
    let mut out: Vec<char> = Vec::new();
    push_str(&mut out, "not a file: ");
    push_str(&mut out, rel);
    GitError::Failed { code: None, stderr: string_of(out.as_slice()) }
}

/// The preview of a file's bytes: at most `max` of them, refused as binary
/// where they hold a NUL byte, decoded leniently, and marked where cut.
pub open spec fn preview_of(bytes: Seq<u8>, max: nat) -> Result<Seq<char>, Seq<char>> {
    let n = if bytes.len() > max {
        max as int
    } else {
        bytes.len() as int
    };
    let shown = bytes.take(n);
    let text = if vstd::utf8::valid_utf8(shown) {
        vstd::utf8::decode_utf8(shown)
    } else {
        lossy_text(shown)
    };
    if shown.contains(0u8) {
        Err("binary file — no text preview"@)
    } else if bytes.len() > max {
        Ok(text + "\n… [truncated]"@)
    } else {
        Ok(text)
    }
}

/// What is saved as UTF-8 text reads back unchanged in a preview, as long
/// as its bytes fit the preview's limit and hold no NUL byte.
pub proof fn law_saved_text_previews_unchanged(text: Seq<char>, max: nat)
    requires
        vstd::utf8::encode_utf8(text).len() <= max,
        !vstd::utf8::encode_utf8(text).contains(0u8),
    ensures
        preview_of(vstd::utf8::encode_utf8(text), max) == Ok::<Seq<char>, Seq<char>>(text),
{
    let b = vstd::utf8::encode_utf8(text);
    assert(b.take(b.len() as int) =~= b);
    vstd::utf8::encode_utf8_valid_utf8(text);
    vstd::utf8::encode_utf8_decode_utf8(text);
}

/// The preview text of a file's bytes, or the error a binary file gets.
pub fn file_text(bytes: &[u8], max_bytes: usize) -> (r: Result<String, GitError>)
    ensures
        match preview_of(bytes@, max_bytes as nat) {
            Ok(t) => r matches Ok(s) && s@ == t,
            Err(m) => r matches Err(GitError::Failed { code: None, stderr: e }) && e@ == m,
        },
{
    let truncated = bytes.len() > max_bytes;
    let n = if truncated {
        max_bytes
    } else {
        bytes.len()
    };
    let shown = slice_subrange(bytes, 0, n);
    assert(shown@ =~= bytes@.take(n as int));
    let mut i: usize = 0;
    while i < n
        invariant
            i <= n == shown@.len(),
            shown@ == bytes@.take(n as int),
            n == (if bytes@.len() > max_bytes {
                max_bytes as int
            } else {
                bytes@.len() as int
            }),
            forall|k: int| 0 <= k < i ==> shown@[k] != 0u8,
        decreases n - i,
    {
        if shown[i] == 0u8 {
            assert(shown@.contains(0u8));
            let m = chars_of("binary file — no text preview");
            return Err(GitError::Failed { code: None, stderr: string_of(m.as_slice()) });
        }
        i = i + 1;
    }
    assert(!shown@.contains(0u8));
    let text = utf8_lossy(shown);
    if truncated {
        let mut out = chars_of(text.as_str());
        push_str(&mut out, "\n… [truncated]");
        Ok(string_of(out.as_slice()))
    } else {
        Ok(text)
    }
}

} // verus!


