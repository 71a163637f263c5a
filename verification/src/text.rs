//! Character-level text handling shared by the parsers.
//!
//! Texts are handled as slices of `char`; pieces of a text are described
//! by spans `(start, end)` into it. The spec functions below state, over
//! `Seq<char>`, what the corresponding operations of `str` compute.

use vstd::prelude::*;

verus! {

/// Wraps `String`'s `FromIterator<&char>` (collecting the characters of a
/// slice): the string holds exactly the given characters, in order.
#[verifier::external_body]
pub(crate) fn string_of(v: &[char]) -> (s: String)
    ensures
        s@ == v@,
{
    v.iter().collect()
}

/// The characters of a string slice, in order.
pub fn chars_of(s: &str) -> (v: Vec<char>)
    ensures
        v@ == s@,
{
    let mut v: Vec<char> = Vec::new();
    for c in it: s.chars()
        invariant
            v@ == it.seq().take(it.index()),
    {
        v.push(c);
    }
    v
}

// ---------------------------------------------------------------------
// Specifications
// ---------------------------------------------------------------------

/// `p` occurs in `s` at position `i`.
pub open spec fn matches_at(s: Seq<char>, p: Seq<char>, i: int) -> bool {
    0 <= i && i + p.len() <= s.len() && s.subrange(i, i + p.len()) == p
}

/// `s` starts with `p` (as `str::starts_with`).
pub open spec fn starts_with(s: Seq<char>, p: Seq<char>) -> bool {
    matches_at(s, p, 0)
}

/// `p` occurs somewhere in `s` (as `str::contains`).
pub open spec fn contains(s: Seq<char>, p: Seq<char>) -> bool {
    exists|i: int| matches_at(s, p, i)
}

/// The first position at or after `i` where `p` occurs in `s`.
pub open spec fn find_from(s: Seq<char>, p: Seq<char>, i: int) -> Option<int>
    decreases s.len() - i,
{
    if i < 0 || i + p.len() > s.len() {
        None
    } else if matches_at(s, p, i) {
        Some(i)
    } else if i >= s.len() {
        None
    } else {
        find_from(s, p, i + 1)
    }
}

pub open spec fn opt_int(o: Option<usize>) -> Option<int> {
    match o {
        Some(v) => Some(v as int),
        None => None,
    }
}

pub proof fn lemma_find_from(s: Seq<char>, p: Seq<char>, i: int)
    requires
        0 <= i,
    ensures
        match find_from(s, p, i) {
            Some(j) => i <= j && matches_at(s, p, j) && forall|k: int|
                i <= k < j ==> !#[trigger] matches_at(s, p, k),
            None => forall|k: int| i <= k ==> !#[trigger] matches_at(s, p, k),
        },
    decreases s.len() - i,
{
    if i + p.len() > s.len() {
    } else if matches_at(s, p, i) {
    } else if i >= s.len() {
    } else {
        lemma_find_from(s, p, i + 1);
    }
}

/// `s` split at every occurrence of the non-empty pattern `p`, from
/// position `start` on (as `str::split`).
pub open spec fn split_from(s: Seq<char>, p: Seq<char>, start: int) -> Seq<Seq<char>>
    decreases s.len() - start,
{
    if start < 0 || start > s.len() || p.len() == 0 {
        seq![s.subrange(start, s.len() as int)]
    } else {
        match find_from(s, p, start) {
            Some(j) => {
                proof {
                    lemma_find_from(s, p, start);
                }
                seq![s.subrange(start, j)] + split_from(s, p, j + p.len())
            },
            None => seq![s.subrange(start, s.len() as int)],
        }
    }
}

/// `s` split at every occurrence of `p` (as `str::split`).
pub open spec fn split(s: Seq<char>, p: Seq<char>) -> Seq<Seq<char>> {
    split_from(s, p, 0)
}

/// The pieces `ps` one after another, with `c` between each two.
pub open spec fn joined_with(ps: Seq<Seq<char>>, c: char) -> Seq<char>
    decreases ps.len(),
{
    if ps.len() == 0 {
        seq![]
    } else if ps.len() == 1 {
        ps[0]
    } else {
        ps[0] + seq![c] + joined_with(ps.drop_first(), c)
    }
}

/// From `i` on, the first `c` in `s` is at `j` (or there is none where
/// `j` is the end).
pub proof fn lemma_find_char(s: Seq<char>, c: char, i: int, j: int)
    requires
        0 <= i <= j <= s.len(),
        forall|k: int| i <= k < j ==> s[k] != c,
        j < s.len() ==> s[j] == c,
    ensures
        find_from(s, seq![c], i) == if j < s.len() {
            Some(j)
        } else {
            None::<int>
        },
    decreases j - i,
{
    if i < j {
        assert(!matches_at(s, seq![c], i)) by {
            if matches_at(s, seq![c], i) {
                assert(s.subrange(i, i + 1)[0] == s[i]);
            }
        }
        lemma_find_char(s, c, i + 1, j);
    } else if j < s.len() {
        assert(s.subrange(j, j + 1) =~= seq![c]);
    }
}

/// Splitting pieces that were joined by `c`, none holding `c`, gives the
/// pieces back, after any prefix `x`.
pub proof fn lemma_split_joined(x: Seq<char>, ps: Seq<Seq<char>>, c: char)
    requires
        ps.len() >= 1,
        forall|i: int| 0 <= i < ps.len() ==> !(#[trigger] ps[i]).contains(c),
    ensures
        split_from(x + joined_with(ps, c), seq![c], x.len() as int) == ps,
    decreases ps.len(),
{
    let s = x + joined_with(ps, c);
    let n = x.len() as int;
    let j = n + ps[0].len();
    assert forall|k: int| n <= k < j implies s[k] != c by {
        assert(s[k] == ps[0][k - n]);
    }
    if ps.len() == 1 {
        lemma_find_char(s, c, n, j);
        assert(s.subrange(n, s.len() as int) =~= ps[0]);
        assert(ps =~= seq![ps[0]]);
    } else {
        let rest = ps.drop_first();
        let x2 = x + ps[0] + seq![c];
        assert(s =~= x2 + joined_with(rest, c));
        assert(s[j] == c);
        lemma_find_char(s, c, n, j);
        assert forall|i: int| 0 <= i < rest.len() implies !(#[trigger] rest[i]).contains(c) by {
            assert(rest[i] == ps[i + 1]);
        }
        lemma_split_joined(x2, rest, c);
        assert(s.subrange(n, j) =~= ps[0]);
        assert(ps =~= seq![ps[0]] + rest);
    }
}

/// Pieces none of which holds `d`, joined by `c` other than `d`, hold no `d`.
pub proof fn lemma_joined_avoids(ps: Seq<Seq<char>>, c: char, d: char)
    requires
        d != c,
        forall|i: int| 0 <= i < ps.len() ==> !(#[trigger] ps[i]).contains(d),
    ensures
        !joined_with(ps, c).contains(d),
    decreases ps.len(),
{
    if ps.len() == 1 {
        assert(!ps[0].contains(d));
    } else if ps.len() >= 2 {
        let t = ps.drop_first();
        assert forall|i: int| 0 <= i < t.len() implies !(#[trigger] t[i]).contains(d) by {
            assert(t[i] == ps[i + 1]);
        }
        lemma_joined_avoids(t, c, d);
        let j = joined_with(ps, c);
        let a = ps[0];
        assert(!a.contains(d));
        if j.contains(d) {
            let k = choose|k: int| 0 <= k < j.len() && j[k] == d;
            if k < a.len() {
                assert(j[k] == a[k]);
            } else if k > a.len() {
                assert(j[k] == joined_with(t, c)[k - a.len() - 1]);
            }
        }
    }
}

/// The last character of pieces joined by `c`: that of the last piece, or
/// `c` where the last piece is empty and follows another.
pub proof fn lemma_joined_last(ps: Seq<Seq<char>>, c: char)
    requires
        ps.len() >= 1,
    ensures
        ps.last().len() > 0 ==> (joined_with(ps, c).len() > 0 && joined_with(ps, c).last()
            == ps.last().last()),
        ps.last().len() == 0 && ps.len() >= 2 ==> (joined_with(ps, c).len() > 0 && joined_with(
            ps,
            c,
        ).last() == c),
    decreases ps.len(),
{
    if ps.len() >= 2 {
        let t = ps.drop_first();
        assert(t.last() == ps.last());
        lemma_joined_last(t, c);
        if t.len() == 1 {
            assert(joined_with(t, c) == t[0]);
        }
    }
}

/// Splitting into `ps.len() + 1` pieces a text made of pieces `ps`, none
/// holding `c`, and a last piece `rest`, all joined by `c`, gives the pieces
/// back, `rest` whole whatever it holds.
pub proof fn lemma_splitn_joined(x: Seq<char>, ps: Seq<Seq<char>>, rest: Seq<char>, c: char)
    requires
        forall|i: int| 0 <= i < ps.len() ==> !(#[trigger] ps[i]).contains(c),
    ensures
        splitn_from(x + joined_with(ps.push(rest), c), seq![c], x.len() as int, (ps.len() + 1) as nat)
            == ps.push(rest),
    decreases ps.len(),
{
    let s = x + joined_with(ps.push(rest), c);
    let n = x.len() as int;
    if ps.len() == 0 {
        assert(ps.push(rest) =~= seq![rest]);
        assert(s.subrange(n, s.len() as int) =~= rest);
    } else {
        let all = ps.push(rest);
        let tail = ps.drop_first();
        assert(all.drop_first() =~= tail.push(rest));
        assert(all[0] == ps[0]);
        let j = n + ps[0].len();
        let x2 = x + ps[0] + seq![c];
        assert(s =~= x2 + joined_with(tail.push(rest), c));
        assert forall|k: int| n <= k < j implies s[k] != c by {
            assert(s[k] == ps[0][k - n]);
            if ps[0][k - n] == c {
                assert(ps[0].contains(c));
            }
        }
        assert(s[j] == c);
        lemma_find_char(s, c, n, j);
        assert forall|i: int| 0 <= i < tail.len() implies !(#[trigger] tail[i]).contains(c) by {
            assert(tail[i] == ps[i + 1]);
        }
        lemma_splitn_joined(x2, tail, rest, c);
        assert(s.subrange(n, j) =~= ps[0]);
        assert(all =~= seq![ps[0]] + tail.push(rest));
    }
}

/// Pieces joined by `c`, none holding `c`, split back into themselves.
pub proof fn lemma_split_join(ps: Seq<Seq<char>>, c: char)
    requires
        ps.len() >= 1,
        forall|i: int| 0 <= i < ps.len() ==> !(#[trigger] ps[i]).contains(c),
    ensures
        split(joined_with(ps, c), seq![c]) == ps,
{
    lemma_split_joined(seq![], ps, c);
    assert(Seq::<char>::empty() + joined_with(ps, c) =~= joined_with(ps, c));
}

/// At most `n` pieces of `s` split at `p`, the last holding the rest (as
/// `str::splitn`).
pub open spec fn splitn_from(s: Seq<char>, p: Seq<char>, start: int, n: nat) -> Seq<Seq<char>>
    decreases n,
{
    if n == 0 {
        seq![]
    } else if n == 1 || start < 0 || start > s.len() || p.len() == 0 {
        seq![s.subrange(start, s.len() as int)]
    } else {
        match find_from(s, p, start) {
            Some(j) => seq![s.subrange(start, j)] + splitn_from(s, p, j + p.len(), (n - 1) as nat),
            None => seq![s.subrange(start, s.len() as int)],
        }
    }
}

pub open spec fn splitn(s: Seq<char>, p: Seq<char>, n: nat) -> Seq<Seq<char>> {
    splitn_from(s, p, 0, n)
}

/// Where the line that starts at `start` ends: at the next `'\n'`, or at
/// the end of the text.
pub open spec fn line_end(s: Seq<char>, start: int) -> int {
    match find_from(s, seq!['\n'], start) {
        Some(j) => j,
        None => s.len() as int,
    }
}

pub proof fn lemma_line_end(s: Seq<char>, start: int)
    requires
        0 <= start <= s.len(),
    ensures
        start <= line_end(s, start) <= s.len(),
        line_end(s, start) < s.len() ==> s[line_end(s, start)] == '\n',
        forall|k: int| start <= k < line_end(s, start) ==> s[k] != '\n',
{
    lemma_find_from(s, seq!['\n'], start);
    assert forall|k: int| start <= k < line_end(s, start) implies s[k] != '\n' by {
        if s[k] == '\n' {
            assert(s.subrange(k, k + 1) =~= seq!['\n']);
            assert(matches_at(s, seq!['\n'], k));
        }
    }
    if line_end(s, start) < s.len() {
        assert(s.subrange(line_end(s, start), line_end(s, start) + 1)[0] == s[line_end(s, start)]);
    }
}

/// The line `s[start..e]`, without the `'\r'` of a `"\r\n"` ending.
pub open spec fn line_at(s: Seq<char>, start: int, e: int) -> Seq<char> {
    if e < s.len() && e > start && s[e - 1] == '\r' {
        s.subrange(start, e - 1)
    } else {
        s.subrange(start, e)
    }
}

/// The lines of `s` from position `start` on (as `str::lines`).
pub open spec fn lines_from(s: Seq<char>, start: int) -> Seq<Seq<char>>
    decreases s.len() + 1 - start,
{
    if start < 0 || start >= s.len() {
        seq![]
    } else {
        let e = line_end(s, start);
        if e < start || e > s.len() {
            seq![]
        } else {
            seq![line_at(s, start, e)] + lines_from(s, e + 1)
        }
    }
}

/// The lines of `s` (as `str::lines`).
pub open spec fn lines(s: Seq<char>) -> Seq<Seq<char>> {
    lines_from(s, 0)
}

/// `y` without a final `'\r'`.
pub open spec fn strip_cr(y: Seq<char>) -> Seq<char> {
    if y.len() > 0 && y.last() == '\r' {
        y.drop_last()
    } else {
        y
    }
}

/// The end of the line that starts at `start` is the first `'\n'` at or
/// after it, or the end of `s`.
pub proof fn lemma_line_end_is(s: Seq<char>, start: int, e: int)
    requires
        0 <= start <= e <= s.len(),
        forall|k: int| start <= k < e ==> s[k] != '\n',
        e < s.len() ==> s[e] == '\n',
    ensures
        line_end(s, start) == e,
{
    lemma_line_end(s, start);
    let f = line_end(s, start);
    if f < e {
        assert(s[f] == '\n');
    } else if f > e {
        assert(s[e] != '\n');
    }
}

/// The lines of `x + s` from `x.len() + i` on are those of `s` from `i` on.
pub proof fn lemma_lines_shift(x: Seq<char>, s: Seq<char>, i: int)
    requires
        0 <= i,
    ensures
        lines_from(x + s, x.len() + i) == lines_from(s, i),
    decreases s.len() + 1 - i,
{
    let t = x + s;
    let a = x.len() + i;
    if i < s.len() {
        lemma_line_end(s, i);
        let e = line_end(s, i);
        assert forall|k: int| a <= k < x.len() + e implies t[k] != '\n' by {
            assert(t[k] == s[k - x.len()]);
        }
        if e < s.len() {
            assert(t[x.len() + e] == s[e]);
        }
        lemma_line_end_is(t, a, x.len() + e);
        if e > i {
            assert(t[x.len() + e - 1] == s[e - 1]);
        }
        assert(line_at(t, a, x.len() + e) =~= line_at(s, i, e));
        lemma_lines_shift(x, s, e + 1);
    }
}

/// A line `y` followed by `'\n'` and the text `rest`: its lines are `y`
/// (without a final `'\r'`) and the lines of `rest`.
pub proof fn lemma_lines_cons(y: Seq<char>, rest: Seq<char>)
    requires
        !y.contains('\n'),
    ensures
        lines(y + seq!['\n'] + rest) == seq![strip_cr(y)] + lines(rest),
{
    let x = y + seq!['\n'];
    let t = x + rest;
    assert forall|k: int| 0 <= k < y.len() implies t[k] != '\n' by {
        assert(t[k] == y[k]);
        if y[k] == '\n' {
            assert(y.contains('\n'));
        }
    }
    assert(t[y.len() as int] == '\n');
    lemma_line_end_is(t, 0, y.len() as int);
    if y.len() > 0 {
        assert(t[y.len() - 1] == y.last());
    }
    assert(line_at(t, 0, y.len() as int) =~= strip_cr(y));
    lemma_lines_shift(x, rest, 0);
}

/// No line of `s` holds a `'\n'`.
pub proof fn lemma_lines_no_newline(s: Seq<char>, start: int)
    requires
        0 <= start,
    ensures
        forall|k: int| 0 <= k < lines_from(s, start).len() ==> !(#[trigger] lines_from(s, start)[k]).contains('\n'),
    decreases s.len() + 1 - start,
{
    if start < s.len() {
        lemma_line_end(s, start);
        let e = line_end(s, start);
        let l = line_at(s, start, e);
        assert(!l.contains('\n')) by {
            if l.contains('\n') {
                let j = choose|j: int| 0 <= j < l.len() && l[j] == '\n';
                assert(l[j] == s[start + j]);
            }
        }
        lemma_lines_no_newline(s, e + 1);
        let r = lines_from(s, start);
        assert(r == seq![l] + lines_from(s, e + 1));
        assert forall|k: int| 0 <= k < r.len() implies !(#[trigger] r[k]).contains('\n') by {
            if k > 0 {
                assert(r[k] == lines_from(s, e + 1)[k - 1]);
            }
        }
    }
}

/// Dropping a final `'\r'` keeps what `trim_start` starts with: the rest
/// is a prefix of it, or empty.
pub proof fn lemma_trim_start_cr(y: Seq<char>, m: Seq<char>)
    requires
        m.len() > 0,
        starts_with(trim_start(strip_cr(y)), m),
    ensures
        starts_with(trim_start(y), m),
{
    if y.len() > 0 && y.last() == '\r' {
        let z = y.drop_last();
        lemma_skip_ws(z, 0);
        lemma_skip_ws(y, 0);
        let p = skip_ws(z, 0);
        let q = skip_ws(y, 0);
        assert(p < z.len());
        if q < p {
            assert(y[q] == z[q]);
        } else if q > p {
            assert(y[p] == z[p]);
        }
        assert(q == p);
        assert(trim_start(y).subrange(0, m.len() as int) =~= trim_start(z).subrange(0, m.len() as int));
    }
}


/// The spans `sp` cut exactly the pieces `pieces` out of `s`.
pub open spec fn spans_are(s: Seq<char>, sp: Seq<(usize, usize)>, pieces: Seq<Seq<char>>) -> bool {
    &&& sp.len() == pieces.len()
    &&& forall|k: int|
        #![trigger sp[k]]
        #![trigger pieces[k]]
        0 <= k < sp.len() ==> {
            &&& sp[k].0 <= sp[k].1
            &&& sp[k].1 <= s.len()
            &&& s.subrange(sp[k].0 as int, sp[k].1 as int) == pieces[k]
        }
}


/// Unicode `White_Space`, as `char::is_whitespace`.
pub open spec fn is_ws(c: char) -> bool {
    let u = c as u32;
    ||| u == 0x20
    ||| 0x09 <= u <= 0x0d
    ||| u == 0x85
    ||| u == 0xa0
    ||| u == 0x1680
    ||| 0x2000 <= u <= 0x200a
    ||| u == 0x2028
    ||| u == 0x2029
    ||| u == 0x202f
    ||| u == 0x205f
    ||| u == 0x3000
}

/// The first position at or after `i` that holds no whitespace (or the end).
pub open spec fn skip_ws(s: Seq<char>, i: int) -> int
    decreases s.len() - i,
{
    if i < 0 || i >= s.len() {
        i
    } else if is_ws(s[i]) {
        skip_ws(s, i + 1)
    } else {
        i
    }
}

/// The first position at or after `i` that holds whitespace (or the end).
pub open spec fn skip_word(s: Seq<char>, i: int) -> int
    decreases s.len() - i,
{
    if i < 0 || i >= s.len() {
        i
    } else if is_ws(s[i]) {
        i
    } else {
        skip_word(s, i + 1)
    }
}

/// The end of `s[..e]` once trailing whitespace is dropped.
pub open spec fn rskip_ws(s: Seq<char>, e: int) -> int
    decreases e,
{
    if e <= 0 || e > s.len() {
        e
    } else if is_ws(s[e - 1]) {
        rskip_ws(s, e - 1)
    } else {
        e
    }
}

/// `s` without leading whitespace (as `str::trim_start`).
pub open spec fn trim_start(s: Seq<char>) -> Seq<char> {
    s.subrange(skip_ws(s, 0), s.len() as int)
}

/// `s` without leading and trailing whitespace (as `str::trim`).
pub open spec fn trim(s: Seq<char>) -> Seq<char> {
    if skip_ws(s, 0) >= s.len() {
        seq![]
    } else {
        s.subrange(skip_ws(s, 0), rskip_ws(s, s.len() as int))
    }
}

/// The whitespace-separated words of `s` from `i` on (as
/// `str::split_whitespace`).
pub open spec fn words_from(s: Seq<char>, i: int) -> Seq<Seq<char>>
    decreases s.len() + 1 - i,
{
    let a = skip_ws(s, i);
    if i < 0 || a < i || a >= s.len() {
        seq![]
    } else {
        let b = skip_word(s, a);
        if b <= a || b > s.len() {
            seq![]
        } else {
            seq![s.subrange(a, b)] + words_from(s, b)
        }
    }
}

/// The whitespace-separated words of `s` (as `str::split_whitespace`).
pub open spec fn words(s: Seq<char>) -> Seq<Seq<char>> {
    words_from(s, 0)
}

/// Where `s` begins once every leading repetition of the non-empty `p`
/// is removed, from `i` on (as `str::trim_start_matches`).
pub open spec fn strip_all_from(s: Seq<char>, p: Seq<char>, i: int) -> int
    decreases s.len() - i,
{
    if p.len() > 0 && matches_at(s, p, i) {
        strip_all_from(s, p, i + p.len())
    } else {
        i
    }
}

pub open spec fn trim_start_matches(s: Seq<char>, p: Seq<char>) -> Seq<char> {
    s.subrange(strip_all_from(s, p, 0), s.len() as int)
}

/// Where `s[..e]` ends once every trailing `c` is removed (as
/// `str::trim_end_matches` with a character).
pub open spec fn rstrip_char(s: Seq<char>, c: char, e: int) -> int
    decreases e,
{
    if e <= 0 || e > s.len() {
        e
    } else if s[e - 1] == c {
        rstrip_char(s, c, e - 1)
    } else {
        e
    }
}

pub open spec fn is_digit(c: char) -> bool {
    '0' <= c && c <= '9'
}

pub open spec fn digit_value(c: char) -> nat {
    ((c as u32) - ('0' as u32)) as nat
}

pub open spec fn all_digits(s: Seq<char>) -> bool {
    forall|i: int| 0 <= i < s.len() ==> is_digit(#[trigger] s[i])
}

/// The number that a string of decimal digits spells.
pub open spec fn digits_value(s: Seq<char>) -> nat
    decreases s.len(),
{
    if s.len() == 0 {
        0
    } else {
        digits_value(s.drop_last()) * 10 + digit_value(s.last())
    }
}

/// An unsigned decimal number with an optional leading `+`, as `FromStr`
/// of the unsigned integer types reads it, before the range check.
pub open spec fn parse_uint(s: Seq<char>) -> Option<nat> {
    let d = if s.len() > 0 && s[0] == '+' {
        s.drop_first()
    } else {
        s
    };
    if d.len() > 0 && all_digits(d) {
        Some(digits_value(d))
    } else {
        None
    }
}

/// `FromStr` of an unsigned integer type whose largest value is `bound`.
pub open spec fn parse_bounded(s: Seq<char>, bound: nat) -> Option<nat> {
    match parse_uint(s) {
        Some(v) => if v <= bound {
            Some(v)
        } else {
            None
        },
        None => None,
    }
}

pub open spec fn digit_char(d: nat) -> char {
    if d == 0 {
        '0'
    } else if d == 1 {
        '1'
    } else if d == 2 {
        '2'
    } else if d == 3 {
        '3'
    } else if d == 4 {
        '4'
    } else if d == 5 {
        '5'
    } else if d == 6 {
        '6'
    } else if d == 7 {
        '7'
    } else if d == 8 {
        '8'
    } else {
        '9'
    }
}

/// The decimal digits of `n`, as `Display` writes an unsigned integer.
pub open spec fn decimal(n: nat) -> Seq<char>
    decreases n,
{
    if n < 10 {
        seq![digit_char(n)]
    } else {
        decimal(n / 10).push(digit_char(n % 10))
    }
}

/// `n` as `Display` writes a signed integer.
pub open spec fn signed_decimal(n: int) -> Seq<char> {
    if n < 0 {
        seq!['-'] + decimal((-n) as nat)
    } else {
        decimal(n as nat)
    }
}

/// `s` with every `from` replaced by `to`.
pub open spec fn replace_char(s: Seq<char>, from: char, to: char) -> Seq<char> {
    s.map_values(|c: char| if c == from { to } else { c })
}

pub proof fn lemma_spans_push(
    s: Seq<char>,
    sp: Seq<(usize, usize)>,
    pieces: Seq<Seq<char>>,
    a: usize,
    b: usize,
)
    requires
        spans_are(s, sp, pieces),
        a <= b <= s.len(),
    ensures
        spans_are(s, sp.push((a, b)), pieces.push(s.subrange(a as int, b as int))),
{
    let sp2 = sp.push((a, b));
    let pc2 = pieces.push(s.subrange(a as int, b as int));
    assert forall|k: int| 0 <= k < sp2.len() implies {
        &&& sp2[k].0 <= sp2[k].1
        &&& sp2[k].1 <= s.len()
        &&& s.subrange(sp2[k].0 as int, sp2[k].1 as int) == pc2[k]
    } by {
        if k < sp.len() {
            assert(sp2[k] == sp[k]);
            assert(pc2[k] == pieces[k]);
        } else {
            assert(sp2[k] == (a, b));
            assert(pc2[k] == s.subrange(a as int, b as int));
        }
    }
    assert(sp2.len() == pc2.len());
}

// ---------------------------------------------------------------------
// Searching and splitting
// ---------------------------------------------------------------------

/// Whether `p` occurs in `s` at position `i`.
pub fn match_at(s: &[char], p: &[char], i: usize) -> (r: bool)
    ensures
        r == matches_at(s@, p@, i as int),
{
    if i > s.len() || p.len() > s.len() - i {
        return false;
    }
    let mut k: usize = 0;
    while k < p.len()
        invariant
            0 <= k <= p.len(),
            i + p.len() <= s.len(),
            forall|m: int| 0 <= m < k ==> s@[i + m] == p@[m],
        decreases p.len() - k,
    {
        if s[i + k] != p[k] {
            assert(s@.subrange(i as int, i + p.len())[k as int] != p@[k as int]);
            return false;
        }
        k = k + 1;
    }
    assert(s@.subrange(i as int, i + p.len()) =~= p@);
    true
}

/// Whether `s` starts with `p`.
pub fn has_prefix(s: &[char], p: &[char]) -> (r: bool)
    ensures
        r == starts_with(s@, p@),
{
    match_at(s, p, 0)
}

/// The first position at or after `from` where `p` occurs in `s`.
pub fn find_pat(s: &[char], p: &[char], from: usize) -> (r: Option<usize>)
    ensures
        opt_int(r) == find_from(s@, p@, from as int),
{
    let mut j = from;
    while j <= s.len() && p.len() <= s.len() - j
        invariant
            from <= j,
            find_from(s@, p@, from as int) == find_from(s@, p@, j as int),
        decreases s.len() - j,
    {
        if match_at(s, p, j) {
            return Some(j);
        }
        if j == s.len() {
            return None;
        }
        j = j + 1;
    }
    None
}

/// Whether `p` occurs in `s`.
pub fn has_substring(s: &[char], p: &[char]) -> (r: bool)
    ensures
        r == contains(s@, p@),
{
    let r = find_pat(s, p, 0);
    proof {
        lemma_find_from(s@, p@, 0);
    }
    r.is_some()
}

/// The spans of the pieces of `s` split at the non-empty pattern `p`.
pub fn split_spans(s: &[char], p: &[char]) -> (r: Vec<(usize, usize)>)
    requires
        p@.len() > 0,
    ensures
        spans_are(s@, r@, split(s@, p@)),
{
    let mut r: Vec<(usize, usize)> = Vec::new();
    let mut start: usize = 0;
    let ghost mut done: Seq<Seq<char>> = seq![];
    loop
        invariant
            start <= s.len(),
            p@.len() > 0,
            spans_are(s@, r@, done),
            done + split_from(s@, p@, start as int) == split(s@, p@),
        decreases s.len() - start,
    {
        let f = find_pat(s, p, start);
        proof {
            lemma_find_from(s@, p@, start as int);
        }
        match f {
            Some(j) => {
                proof {
                    assert(split_from(s@, p@, start as int) == seq![s@.subrange(start as int, j as int)]
                        + split_from(s@, p@, j + p@.len()));
                    assert(done.push(s@.subrange(start as int, j as int)) + split_from(s@, p@, j + p@.len())
                        =~= done + split_from(s@, p@, start as int));
                    lemma_spans_push(s@, r@, done, start, j);
                    done = done.push(s@.subrange(start as int, j as int));
                }
                r.push((start, j));
                start = j + p.len();
            },
            None => {
                proof {
                    assert(done.push(s@.subrange(start as int, s@.len() as int)) =~= done + split_from(s@, p@, start as int));
                    lemma_spans_push(s@, r@, done, start, s.len());
                    done = done.push(s@.subrange(start as int, s@.len() as int));
                }
                r.push((start, s.len()));
                return r;
            },
        }
    }
}


/// The spans of the lines of `s`.
pub fn line_spans(s: &[char]) -> (r: Vec<(usize, usize)>)
    ensures
        spans_are(s@, r@, lines(s@)),
{
    let nl: Vec<char> = vec!['\n'];
    assert(nl@ =~= seq!['\n']);
    let mut r: Vec<(usize, usize)> = Vec::new();
    let mut start: usize = 0;
    let ghost mut done: Seq<Seq<char>> = seq![];
    while start < s.len()
        invariant
            start <= s.len(),
            nl@ == seq!['\n'],
            spans_are(s@, r@, done),
            done + lines_from(s@, start as int) == lines(s@),
        decreases s.len() - start,
    {
        let f = find_pat(s, nl.as_slice(), start);
        let e: usize = match f {
            Some(j) => j,
            None => s.len(),
        };
        proof {
            lemma_line_end(s@, start as int);
        }
        assert(e as int == line_end(s@, start as int));
        let stop: usize = if e < s.len() && e > start && s[e - 1] == '\r' {
            e - 1
        } else {
            e
        };
        proof {
            assert(s@.subrange(start as int, stop as int) == line_at(s@, start as int, e as int));
            assert(lines_from(s@, start as int) == seq![line_at(s@, start as int, e as int)]
                + lines_from(s@, e + 1));
            lemma_spans_push(s@, r@, done, start, stop);
            assert(done.push(line_at(s@, start as int, e as int)) + lines_from(s@, e + 1)
                =~= done + lines_from(s@, start as int));
            done = done.push(line_at(s@, start as int, e as int));
        }
        r.push((start, stop));
        if e == s.len() {
            assert(lines_from(s@, e + 1) == Seq::<Seq<char>>::empty());
            assert(done =~= lines(s@));
            return r;
        }
        start = e + 1;
    }
    assert(done =~= lines(s@));
    r
}

/// The spans of at most `n` pieces of `s` split at the non-empty `p`.
pub fn splitn_spans(s: &[char], p: &[char], n: usize) -> (r: Vec<(usize, usize)>)
    requires
        p@.len() > 0,
    ensures
        spans_are(s@, r@, splitn(s@, p@, n as nat)),
{
    let mut r: Vec<(usize, usize)> = Vec::new();
    if n == 0 {
        return r;
    }
    let mut start: usize = 0;
    let mut left: usize = n;
    let ghost mut done: Seq<Seq<char>> = seq![];
    loop
        invariant
            start <= s.len(),
            1 <= left <= n,
            p@.len() > 0,
            spans_are(s@, r@, done),
            done + splitn_from(s@, p@, start as int, left as nat) == splitn(s@, p@, n as nat),
        decreases left,
    {
        let f = if left == 1 {
            None
        } else {
            find_pat(s, p, start)
        };
        proof {
            lemma_find_from(s@, p@, start as int);
        }
        match f {
            Some(j) => {
                proof {
                    lemma_spans_push(s@, r@, done, start, j);
                    assert(done.push(s@.subrange(start as int, j as int)) + splitn_from(
                        s@,
                        p@,
                        j + p@.len(),
                        (left - 1) as nat,
                    ) =~= done + splitn_from(s@, p@, start as int, left as nat));
                    done = done.push(s@.subrange(start as int, j as int));
                }
                r.push((start, j));
                start = j + p.len();
                left = left - 1;
            },
            None => {
                proof {
                    lemma_spans_push(s@, r@, done, start, s.len());
                    assert(done.push(s@.subrange(start as int, s@.len() as int))
                        =~= done + splitn_from(s@, p@, start as int, left as nat));
                    done = done.push(s@.subrange(start as int, s@.len() as int));
                }
                r.push((start, s.len()));
                return r;
            },
        }
    }
}

/// Whether `c` is whitespace.
pub fn is_whitespace(c: char) -> (r: bool)
    ensures
        r == is_ws(c),
{
    let u = c as u32;
    u == 0x20 || (0x09 <= u && u <= 0x0d) || u == 0x85 || u == 0xa0 || u == 0x1680 || (0x2000
        <= u && u <= 0x200a) || u == 0x2028 || u == 0x2029 || u == 0x202f || u == 0x205f || u
        == 0x3000
}

/// The first position at or after `i` without whitespace.
pub fn skip_whitespace(s: &[char], i: usize) -> (r: usize)
    requires
        i <= s@.len(),
    ensures
        r as int == skip_ws(s@, i as int),
        i <= r <= s@.len(),
{
    let mut j = i;
    while j < s.len() && is_whitespace(s[j])
        invariant
            i <= j <= s@.len(),
            skip_ws(s@, i as int) == skip_ws(s@, j as int),
        decreases s.len() - j,
    {
        j = j + 1;
    }
    j
}

/// The first position at or after `i` with whitespace.
pub fn skip_non_whitespace(s: &[char], i: usize) -> (r: usize)
    requires
        i <= s@.len(),
    ensures
        r as int == skip_word(s@, i as int),
        i <= r <= s@.len(),
{
    let mut j = i;
    while j < s.len() && !is_whitespace(s[j])
        invariant
            i <= j <= s@.len(),
            skip_word(s@, i as int) == skip_word(s@, j as int),
        decreases s.len() - j,
    {
        j = j + 1;
    }
    j
}

pub proof fn lemma_rskip_ws(s: Seq<char>, e: int)
    requires
        0 <= e <= s.len(),
    ensures
        0 <= rskip_ws(s, e) <= e,
        forall|k: int| rskip_ws(s, e) <= k < e ==> is_ws(s[k]),
        rskip_ws(s, e) > 0 ==> !is_ws(s[rskip_ws(s, e) - 1]),
    decreases e,
{
    if e > 0 && is_ws(s[e - 1]) {
        lemma_rskip_ws(s, e - 1);
    }
}

pub proof fn lemma_skip_word(s: Seq<char>, i: int)
    requires
        0 <= i <= s.len(),
    ensures
        i <= skip_word(s, i) <= s.len(),
        forall|k: int| i <= k < skip_word(s, i) ==> !is_ws(s[k]),
    decreases s.len() - i,
{
    if i < s.len() && !is_ws(s[i]) {
        lemma_skip_word(s, i + 1);
    }
}

pub proof fn lemma_skip_ws(s: Seq<char>, i: int)
    requires
        0 <= i <= s.len(),
    ensures
        i <= skip_ws(s, i) <= s.len(),
        forall|k: int| i <= k < skip_ws(s, i) ==> is_ws(s[k]),
        skip_ws(s, i) < s.len() ==> !is_ws(s[skip_ws(s, i)]),
    decreases s.len() - i,
{
    if i < s.len() && is_ws(s[i]) {
        lemma_skip_ws(s, i + 1);
    }
}

/// The span of `s` without leading and trailing whitespace.
pub fn trim_span(s: &[char]) -> (r: (usize, usize))
    ensures
        r.0 <= r.1 <= s@.len(),
        s@.subrange(r.0 as int, r.1 as int) == trim(s@),
{
    let a = skip_whitespace(s, 0);
    if a >= s.len() {
        assert(s@.subrange(a as int, a as int) =~= Seq::<char>::empty());
        return (a, a);
    }
    let mut e = s.len();
    while e > 0 && is_whitespace(s[e - 1])
        invariant
            e <= s@.len(),
            rskip_ws(s@, s@.len() as int) == rskip_ws(s@, e as int),
        decreases e,
    {
        e = e - 1;
    }
    proof {
        lemma_skip_ws(s@, 0);
        lemma_rskip_ws(s@, s@.len() as int);
        if e <= a {
            assert(is_ws(s@[a as int]));
        }
    }
    (a, e)
}

/// Where `s` begins without leading whitespace.
pub fn trim_start_at(s: &[char]) -> (r: usize)
    ensures
        r <= s@.len(),
        s@.subrange(r as int, s@.len() as int) == trim_start(s@),
{
    skip_whitespace(s, 0)
}

/// Where `s` begins once every leading repetition of the non-empty `p` is
/// removed.
pub fn strip_all(s: &[char], p: &[char]) -> (r: usize)
    requires
        p@.len() > 0,
    ensures
        r as int == strip_all_from(s@, p@, 0),
        r <= s@.len(),
{
    let mut i: usize = 0;
    loop
        invariant
            i <= s@.len(),
            p@.len() > 0,
            strip_all_from(s@, p@, 0) == strip_all_from(s@, p@, i as int),
        decreases s@.len() - i,
    {
        let m = match_at(s, p, i);
        if !m {
            return i;
        }
        assert(i + p@.len() <= s@.len() == s.len());
        i = i + p.len();
    }
}

/// Where `s` ends once every trailing `c` is removed.
pub fn rstrip(s: &[char], c: char) -> (r: usize)
    ensures
        r as int == rstrip_char(s@, c, s@.len() as int),
        r <= s@.len(),
{
    let mut e = s.len();
    while e > 0 && s[e - 1] == c
        invariant
            e <= s@.len(),
            rstrip_char(s@, c, s@.len() as int) == rstrip_char(s@, c, e as int),
        decreases e,
    {
        e = e - 1;
    }
    e
}

/// The spans of the whitespace-separated words of `s`.
pub fn word_spans(s: &[char]) -> (r: Vec<(usize, usize)>)
    ensures
        spans_are(s@, r@, words(s@)),
{
    let mut r: Vec<(usize, usize)> = Vec::new();
    let mut i: usize = 0;
    let ghost mut done: Seq<Seq<char>> = seq![];
    loop
        invariant
            i <= s@.len(),
            spans_are(s@, r@, done),
            done + words_from(s@, i as int) == words(s@),
        decreases s@.len() - i,
    {
        let a = skip_whitespace(s, i);
        if a >= s.len() {
            assert(words_from(s@, i as int) == Seq::<Seq<char>>::empty());
            assert(done =~= words(s@));
            return r;
        }
        let b = skip_non_whitespace(s, a);
        proof {
            lemma_skip_ws(s@, i as int);
            lemma_skip_word(s@, a as int + 1);
            assert(b > a);
            lemma_spans_push(s@, r@, done, a, b);
            assert(words_from(s@, i as int) == seq![s@.subrange(a as int, b as int)] + words_from(s@, b as int));
            assert(done.push(s@.subrange(a as int, b as int)) + words_from(s@, b as int)
                =~= done + words_from(s@, i as int));
            done = done.push(s@.subrange(a as int, b as int));
        }
        r.push((a, b));
        i = b;
    }
}


/// Whether `a` and `b` hold the same characters.
pub fn same_chars(a: &[char], b: &[char]) -> (r: bool)
    ensures
        r == (a@ == b@),
{
    if a.len() != b.len() {
        return false;
    }
    let m = match_at(a, b, 0);
    assert(m ==> a@.subrange(0, a@.len() as int) =~= a@);
    if !m {
        assert(a@.subrange(0, a@.len() as int) =~= a@);
    }
    m
}

pub open spec fn opt_nat(o: Option<u64>) -> Option<nat> {
    match o {
        Some(v) => Some(v as nat),
        None => None,
    }
}

pub open spec fn min_nat(a: nat, b: nat) -> nat {
    if a <= b {
        a
    } else {
        b
    }
}

/// The number that `s` spells, as `FromStr` of an unsigned integer type
/// whose largest value is `bound` reads it.
pub fn parse_number(s: &[char], bound: u64) -> (r: Option<u64>)
    ensures
        opt_nat(r) == parse_bounded(s@, bound as nat),
{
    let n = s.len();
    let start: usize = if n > 0 && s[0] == '+' {
        1
    } else {
        0
    };
    let ghost d = if s@.len() > 0 && s@[0] == '+' {
        s@.drop_first()
    } else {
        s@
    };
    assert(d =~= s@.subrange(start as int, n as int));
    if start >= n {
        return None;
    }
    let cap: u128 = bound as u128 + 1;
    let mut acc: u128 = 0;
    let mut i: usize = start;
    while i < n
        invariant
            start <= i <= n,
            n == s@.len(),
            d == s@.subrange(start as int, n as int),
            d == (if s@.len() > 0 && s@[0] == '+' {
                s@.drop_first()
            } else {
                s@
            }),
            cap == bound + 1,
            acc as nat == min_nat(digits_value(d.take(i - start)), cap as nat),
            forall|j: int| 0 <= j < i - start ==> is_digit(#[trigger] d[j]),
        decreases n - i,
    {
        let c = s[i];
        if !(c >= '0' && c <= '9') {
            assert(!is_digit(d[i - start]));
            assert(!all_digits(d));
            return None;
        }
        let v: u32 = (c as u32) - ('0' as u32);
        assert(v as nat == digit_value(d[i - start]));
        proof {
            let k = i - start;
            assert(d.take(k + 1).drop_last() =~= d.take(k));
            assert(d.take(k + 1).last() == d[k]);
        }
        acc = acc * 10 + v as u128;
        if acc > cap {
            acc = cap;
        }
        i = i + 1;
    }
    assert(d.take(n - start) =~= d);
    if acc > bound as u128 {
        None
    } else {
        Some(acc as u64)
    }
}

/// `FromStr` for `u32`.
pub fn parse_u32(s: &[char]) -> (r: Option<u32>)
    ensures
        match r {
            Some(v) => parse_bounded(s@, u32::MAX as nat) == Some(v as nat),
            None => parse_bounded(s@, u32::MAX as nat) is None,
        },
{
    match parse_number(s, u32::MAX as u64) {
        Some(v) => Some(v as u32),
        None => None,
    }
}

/// `FromStr` for `usize`.
pub fn parse_usize(s: &[char]) -> (r: Option<usize>)
    ensures
        match r {
            Some(v) => parse_bounded(s@, usize::MAX as nat) == Some(v as nat),
            None => parse_bounded(s@, usize::MAX as nat) is None,
        },
{
    match parse_number(s, usize::MAX as u64) {
        Some(v) => Some(v as usize),
        None => None,
    }
}

fn digit_of(d: u64) -> (c: char)
    requires
        d < 10,
    ensures
        c == digit_char(d as nat),
{
    if d == 0 {
        '0'
    } else if d == 1 {
        '1'
    } else if d == 2 {
        '2'
    } else if d == 3 {
        '3'
    } else if d == 4 {
        '4'
    } else if d == 5 {
        '5'
    } else if d == 6 {
        '6'
    } else if d == 7 {
        '7'
    } else if d == 8 {
        '8'
    } else {
        '9'
    }
}

/// Appends the decimal digits of `n`.
pub fn push_decimal(n: u64, out: &mut Vec<char>)
    ensures
        final(out)@ == old(out)@ + decimal(n as nat),
    decreases n,
{
    if n >= 10 {
        push_decimal(n / 10, out);
    }
    out.push(digit_of(n % 10));
    proof {
        if n >= 10 {
            assert(decimal(n as nat) == decimal((n / 10) as nat).push(digit_char((n % 10) as nat)));
        } else {
            assert(decimal(n as nat) == seq![digit_char(n as nat)]);
        }
    }
    assert(out@ =~= old(out)@ + decimal(n as nat));
}

/// Appends `n` as `Display` writes it.
pub fn push_signed(n: i64, out: &mut Vec<char>)
    ensures
        final(out)@ == old(out)@ + signed_decimal(n as int),
{
    if n < 0 {
        out.push('-');
        let m: u64 = if n == i64::MIN {
            9223372036854775808u64
        } else {
            (-n) as u64
        };
        push_decimal(m, out);
        assert(out@ =~= old(out)@ + signed_decimal(n as int));
    } else {
        push_decimal(n as u64, out);
    }
}

/// Appends the characters of `s`.
pub fn push_str(out: &mut Vec<char>, s: &str)
    ensures
        final(out)@ == old(out)@ + s@,
{
    let cs = chars_of(s);
    push_all(out, cs.as_slice());
}

/// Appends the characters of `s`.
pub fn push_all(out: &mut Vec<char>, s: &[char])
    ensures
        final(out)@ == old(out)@ + s@,
{
    let mut i: usize = 0;
    while i < s.len()
        invariant
            i <= s@.len(),
            out@ == old(out)@ + s@.take(i as int),
        decreases s.len() - i,
    {
        out.push(s[i]);
        assert(s@.take(i + 1) =~= s@.take(i as int).push(s@[i as int]));
        i = i + 1;
    }
    assert(s@.take(s@.len() as int) =~= s@);
}

/// `s` with every `from` replaced by `to`.
pub fn replace_chars(s: &[char], from: char, to: char) -> (r: Vec<char>)
    ensures
        r@ == replace_char(s@, from, to),
{
    let mut r: Vec<char> = Vec::new();
    let mut i: usize = 0;
    while i < s.len()
        invariant
            i <= s@.len(),
            r@ =~= replace_char(s@, from, to).take(i as int),
        decreases s.len() - i,
    {
        let c = s[i];
        r.push(if c == from {
            to
        } else {
            c
        });
        i = i + 1;
    }
    r
}


/// The characters of each string.
pub open spec fn strings_view(v: Seq<String>) -> Seq<Seq<char>> {
    v.map_values(|s: String| s@)
}

/// Appends a copy of `s`.
pub fn push_string(v: &mut Vec<String>, s: &str)
    ensures
        strings_view(final(v)@) == strings_view(old(v)@).push(s@),
{
    let c = chars_of(s);
    let st = string_of(c.as_slice());
    v.push(st);
    assert(strings_view(v@) =~= strings_view(old(v)@).push(s@));
}

/// Appends a string made of the characters `s`.
pub fn push_chars(v: &mut Vec<String>, s: &[char])
    ensures
        strings_view(final(v)@) == strings_view(old(v)@).push(s@),
{
    let st = string_of(s);
    v.push(st);
    assert(strings_view(v@) =~= strings_view(old(v)@).push(s@));
}


pub proof fn lemma_digit_char(d: nat)
    requires
        d < 10,
    ensures
        is_digit(digit_char(d)),
        digit_value(digit_char(d)) == d,
{
}

/// The decimal digits of a number read back as that number.
pub proof fn lemma_decimal_reads_back(n: nat)
    ensures
        decimal(n).len() > 0,
        all_digits(decimal(n)),
        digits_value(decimal(n)) == n,
        parse_uint(decimal(n)) == Some(n),
    decreases n,
{
    lemma_digit_char(n % 10);
    if n >= 10 {
        lemma_decimal_reads_back(n / 10);
        let d = decimal(n / 10);
        let s = decimal(n);
        assert(s == d.push(digit_char(n % 10)));
        assert(s.drop_last() =~= d);
        assert forall|i: int| 0 <= i < s.len() implies is_digit(#[trigger] s[i]) by {
            if i < d.len() {
                assert(s[i] == d[i]);
            }
        }
        assert(n == (n / 10) * 10 + n % 10);
        assert(s.last() == digit_char(n % 10));
        assert(digits_value(s) == digits_value(d) * 10 + digit_value(digit_char(n % 10)));
    } else {
        let s = decimal(n);
        assert(s =~= seq![digit_char(n)]);
        assert(s.drop_last() =~= Seq::<char>::empty());
        assert(digits_value(s.drop_last()) == 0);
        assert(s.last() == digit_char(n));
        assert(digits_value(s) == digits_value(s.drop_last()) * 10 + digit_value(s.last()));
    }
    assert(decimal(n)[0] != '+');
    assert(parse_uint(decimal(n)) == Some(digits_value(decimal(n))));
}

} // verus!




