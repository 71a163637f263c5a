//! Git invocation results, errors and path handling.

pub mod console;
pub mod diff;
pub mod files;
pub mod ops;
pub mod status;

use crate::text::{
    chars_of, push_all, push_signed, push_str, push_string, replace_char, replace_chars,
    signed_decimal, split, string_of, strings_view, trim, trim_span,
};
use vstd::slice::slice_subrange;
use vstd::prelude::*;

verus! {

/// What can go wrong when talking to git.
#[derive(Debug, Clone)]
pub enum GitError {
    Failed { code: Option<i32>, stderr: String },
    NoRepo,
    Io(String),
    GitNotFound(String),
}

/// The captured output of a git run.
#[derive(Debug, Clone)]
pub struct GitOutput {
    pub stdout: String,
    pub stderr: String,
}

/// The text of `Some(n)` / `None` as `Debug` writes an `Option<i32>`.
pub open spec fn debug_code(code: Option<i32>) -> Seq<char> {
    match code {
        Some(n) => "Some("@ + signed_decimal(n as int) + ")"@,
        None => "None"@,
    }
}

/// The message of an error, as its `Display` writes it.
pub open spec fn error_message(e: GitError) -> Seq<char> {
    match e {
        GitError::Failed { code, stderr } => "git failed (exit "@ + debug_code(code) + "): "@
            + stderr@,
        GitError::NoRepo => "no repository open"@,
        GitError::Io(m) => "io error: "@ + m@,
        GitError::GitNotFound(m) => "git binary not found: "@ + m@,
    }
}

impl GitError {
    /// The message of this error (what the application shows, and what it
    /// serializes the error as).
    pub fn message(&self) -> (r: String)
        ensures
            r@ == error_message(*self),
    {
        let mut out: Vec<char> = Vec::new();
        match self {
            GitError::Failed { code, stderr } => {
                push_str(&mut out, "git failed (exit ");
                match code {
                    Some(n) => {
                        push_str(&mut out, "Some(");
                        push_signed(*n as i64, &mut out);
                        push_str(&mut out, ")");
                    },
                    None => {
                        push_str(&mut out, "None");
                    },
                }
                push_str(&mut out, "): ");
                push_str(&mut out, stderr.as_str());
                assert(out@ =~= error_message(*self));
            },
            GitError::NoRepo => {
                push_str(&mut out, "no repository open");
                assert(out@ =~= error_message(*self));
            },
            GitError::Io(m) => {
                push_str(&mut out, "io error: ");
                push_str(&mut out, m.as_str());
                assert(out@ =~= error_message(*self));
            },
            GitError::GitNotFound(m) => {
                push_str(&mut out, "git binary not found: ");
                push_str(&mut out, m.as_str());
                assert(out@ =~= error_message(*self));
            },
        }
        string_of(out.as_slice())
    }
}


/// The run's result: its output where git succeeded, else its exit code
/// and its trimmed error output.
pub fn finish_run(stdout: String, stderr: String, success: bool, code: Option<i32>) -> (r: Result<
    GitOutput,
    GitError,
>)
    ensures
        success ==> (r matches Ok(o) && o.stdout == stdout && o.stderr == stderr),
        !success ==> (r matches Err(GitError::Failed { code: c, stderr: e }) && c == code && e@
            == trim(stderr@)),
{
    if success {
        Ok(GitOutput { stdout, stderr })
    } else {
        let t = chars_of(stderr.as_str());
        let (a, b) = trim_span(t.as_slice());
        Err(GitError::Failed { code, stderr: string_of(slice_subrange(t.as_slice(), a, b)) })
    }
}

/// Arguments that name a subcommand get `-c core.pager=cat` in front, so
/// that git never pages; bare flags such as `--version` reject `-c`.
pub open spec fn command_args(args: Seq<Seq<char>>) -> Seq<Seq<char>> {
    if args.len() > 0 && !(args[0].len() > 0 && args[0][0] == '-') {
        seq!["-c"@, "core.pager=cat"@] + args
    } else {
        args
    }
}

/// The output of a git run as text: each stream decoded as UTF-8, each
/// invalid sequence replaced by U+FFFD.
pub fn decode_output(stdout: &[u8], stderr: &[u8]) -> (o: GitOutput)
    ensures
        o.stdout@ == crate::git::files::lossy_text(stdout@),
        o.stderr@ == crate::git::files::lossy_text(stderr@),
        vstd::utf8::valid_utf8(stdout@) ==> o.stdout@ == vstd::utf8::decode_utf8(stdout@),
        vstd::utf8::valid_utf8(stderr@) ==> o.stderr@ == vstd::utf8::decode_utf8(stderr@),
{
    GitOutput {
        stdout: crate::git::files::utf8_lossy(stdout),
        stderr: crate::git::files::utf8_lossy(stderr),
    }
}

/// The full argument list of a git run.
pub fn git_command(args: &[&str]) -> (r: Vec<String>)
    ensures
        strings_view(r@) == command_args(crate::git::console::arg_views(args@)),
{
    let ghost av = crate::git::console::arg_views(args@);
    let mut r: Vec<String> = Vec::new();
    let needs_config = if args.len() > 0 {
        let first = chars_of(args[0]);
        !(first.len() > 0 && first[0] == '-')
    } else {
        false
    };
    if needs_config {
        push_string(&mut r, "-c");
        push_string(&mut r, "core.pager=cat");
    }
    let ghost head = strings_view(r@);
    let mut i: usize = 0;
    while i < args.len()
        invariant
            i <= args@.len(),
            av == crate::git::console::arg_views(args@),
            strings_view(r@) == head + av.take(i as int),
        decreases args.len() - i,
    {
        push_string(&mut r, args[i]);
        assert(av.take(i + 1) =~= av.take(i as int).push(av[i as int]));
        assert(head + av.take(i + 1) =~= (head + av.take(i as int)).push(av[i as int]));
        i = i + 1;
    }
    assert(av.take(args@.len() as int) =~= av);
    assert(strings_view(r@) =~= command_args(av));
    r
}

// ---------------------------------------------------------------------
// Paths
// ---------------------------------------------------------------------

/// A path that some platform may take as absolute: one that starts with a
/// separator (`/` or `\`), or with a drive and a separator such as `C:/`.
pub open spec fn may_be_absolute(path: Seq<char>) -> bool {
    ||| (path.len() > 0 && (path[0] == '/' || path[0] == '\\'))
    ||| (path.len() >= 3 && path[1] == ':' && (path[2] == '/' || path[2] == '\\'))
}

/// Wraps `Path::is_absolute`. What makes a path absolute depends on the
/// platform; stated is what holds on both that its documentation names: an
/// absolute path starts with the root (Unix), or with a prefix and the root
/// (Windows), the prefix being `\\…`, `//…` or a drive `X:` (so `X:\` or
/// `X:/`).
#[verifier::external_body]
fn path_is_absolute(path: &str) -> (r: bool)
    ensures
        r ==> may_be_absolute(path@),
{
    std::path::Path::new(path).is_absolute()
}

/// A segment that names an entry: not empty, `.` or `..`.
pub open spec fn named_segment(g: Seq<char>) -> bool {
    g.len() > 0 && g != "."@ && g != ".."@
}

/// A relative path of named segments separated by single `/`, with no `\`.
pub open spec fn plain_relative(q: Seq<char>) -> bool {
    &&& !q.contains('\\')
    &&& forall|k: int|
        0 <= k < split(q, seq!['/']).len() ==> named_segment(#[trigger] split(q, seq!['/'])[k])
}

/// A directory path of named segments separated by single `/`, from the
/// root `/` or not, with no `\`, and not a bare drive such as `C:`.
pub open spec fn plain_dir(b: Seq<char>) -> bool {
    let g = split(b, seq!['/']);
    &&& b.len() > 0
    &&& !b.contains('\\')
    &&& (g[0].len() == 0 || named_segment(g[0]))
    &&& forall|k: int| 1 <= k < g.len() ==> named_segment(#[trigger] g[k])
    &&& !(g.len() == 1 && g[0].len() == 2 && g[0][1] == ':')
}

/// What follows `base` and a `/` in `path`.
pub open spec fn below(base: Seq<char>, path: Seq<char>) -> Seq<char> {
    path.skip(base.len() + 1int)
}

/// `path` is the plain directory `base`, a `/`, and the plain relative
/// path `below(base, path)`.
pub open spec fn under_dir(base: Seq<char>, path: Seq<char>) -> bool {
    &&& plain_dir(base)
    &&& path.len() > base.len() + 1
    &&& path.take(base.len() as int) == base
    &&& path[base.len() as int] == '/'
    &&& plain_relative(below(base, path))
}

/// Wraps `Path::strip_prefix` (and `to_string_lossy` on its result): the
/// part of `path` after the directory `base`, where `path` lies under it.
/// How paths split into components, and so what lies under what, depends
/// on the platform; stated is what its documentation gives on every
/// platform for plainly formed paths: the part that, joined onto `base`,
/// yields `path`, which for `base/q` is `q`. Nothing is stated of other
/// paths.
#[verifier::external_body]
fn path_strip_prefix(path: &str, base: &str) -> (r: Option<String>)
    ensures
        under_dir(base@, path@) ==> opt_chars(r) == Some(below(base@, path@)),
{
    std::path::Path::new(path).strip_prefix(base).ok().map(|p| p.to_string_lossy().into_owned())
}

/// A path relative to the repository with `/` separators: the part under
/// the repository (`stripped`) where there is one, else the path itself.
pub open spec fn repo_relative(path: Seq<char>, stripped: Option<Seq<char>>) -> Seq<char> {
    match stripped {
        Some(rel) => replace_char(rel, '\\', '/'),
        None => replace_char(path, '\\', '/'),
    }
}

/// `path` made relative: `stripped` is the part of an absolute `path` under
/// the repository, if it lies there.
pub fn relative_path(path: &str, stripped: Option<String>) -> (r: String)
    ensures
        r@ == repo_relative(path@, opt_chars(stripped)),
        !r@.contains('\\'),
{
    let src = match stripped {
        Some(rel) => chars_of(rel.as_str()),
        None => chars_of(path),
    };
    let out = replace_chars(src.as_slice(), '\\', '/');
    string_of(out.as_slice())
}

pub open spec fn opt_chars(o: Option<String>) -> Option<Seq<char>> {
    match o {
        Some(s) => Some(s@),
        None => None,
    }
}

/// `rel` is `path` made relative to the repository `repo`: a path that no
/// platform takes as absolute stays as it is (with `/` separators); a path
/// `repo/q`, both plainly formed, becomes `q` where the platform takes it
/// as absolute and stays as it is where not; of other paths, the platform
/// decides what part is kept.
pub open spec fn relativizes(rel: Seq<char>, repo: Seq<char>, path: Seq<char>) -> bool {
    &&& exists|stripped: Option<Seq<char>>| rel == repo_relative(path, stripped)
    &&& !may_be_absolute(path) ==> rel == replace_char(path, '\\', '/')
    &&& under_dir(repo, path) ==> (rel == below(repo, path) || rel == path)
}

/// Replacing `\` by `/` leaves no `\`, and changes nothing where there was
/// none.
pub proof fn lemma_slashes(s: Seq<char>)
    ensures
        !replace_char(s, '\\', '/').contains('\\'),
        !s.contains('\\') ==> replace_char(s, '\\', '/') == s,
{
    let t = replace_char(s, '\\', '/');
    if t.contains('\\') {
        let j = choose|j: int| 0 <= j < t.len() && t[j] == '\\';
        assert(t[j] == '/' || t[j] == s[j]);
    }
    if !s.contains('\\') {
        assert forall|j: int| 0 <= j < s.len() implies t[j] == s[j] by {
            if s[j] == '\\' {
                assert(s.contains('\\'));
            }
        }
        assert(t =~= s);
    }
}

/// A path relative to the repository `repo`, with `/` separators: an
/// absolute path under `repo` loses that prefix; any other path stays as it
/// is.
pub fn to_repo_relative(repo: &str, path: &str) -> (r: String)
    ensures
        relativizes(r@, repo@, path@),
        !may_be_absolute(path@) ==> r@ == replace_char(path@, '\\', '/'),
        under_dir(repo@, path@) ==> (r@ == below(repo@, path@) || r@ == path@),
        !r@.contains('\\'),
{
    let stripped = if path_is_absolute(path) {
        path_strip_prefix(path, repo)
    } else {
        None
    };
    let r = relative_path(path, stripped);
    proof {
        if under_dir(repo@, path@) {
            let q = below(repo@, path@);
            let n = repo@.len() as int;
            lemma_slashes(q);
            assert(!path@.contains('\\')) by {
                if path@.contains('\\') {
                    let j = choose|j: int| 0 <= j < path@.len() && path@[j] == '\\';
                    if j < n {
                        assert(path@.take(n)[j] == path@[j]);
                        assert(repo@.contains('\\'));
                    } else if j > n {
                        assert(q[j - n - 1] == path@[j]);
                        assert(q.contains('\\'));
                    }
                }
            }
            lemma_slashes(path@);
        }
    }
    r
}

/// Making a path relative to the repository twice changes nothing, where
/// the first result does not look absolute.
pub proof fn law_relative_twice(repo: Seq<char>, path: Seq<char>, rel: Seq<char>, again: Seq<char>)
    requires
        relativizes(rel, repo, path),
        relativizes(again, repo, rel),
        !may_be_absolute(rel),
    ensures
        again == rel,
{
    let stripped = choose|stripped: Option<Seq<char>>| rel == repo_relative(path, stripped);
    match stripped {
        Some(x) => lemma_slashes(x),
        None => lemma_slashes(path),
    }
    lemma_slashes(rel);
}

/// The first directory in `ancestors` that holds a `.git` entry.
pub open spec fn first_with_git(ancestors: Seq<(String, bool)>, i: int) -> Option<int>
    decreases ancestors.len() - i,
{
    if i < 0 || i >= ancestors.len() {
        None
    } else if ancestors[i].1 {
        Some(i)
    } else {
        first_with_git(ancestors, i + 1)
    }
}

/// The root of the repository that `start` lies in: the first of its
/// ancestor directories, nearest first, that holds `.git` (each given with
/// whether it does).
pub fn repo_root(start: &str, ancestors: &[(String, bool)]) -> (r: Result<String, GitError>)
    ensures
        match first_with_git(ancestors@, 0) {
            Some(k) => r matches Ok(root) && root@ == ancestors@[k].0@,
            None => r matches Err(GitError::Failed { code: None, stderr: e }) && e@
                == "not a git repository: "@ + start@,
        },
{
    let mut i: usize = 0;
    while i < ancestors.len()
        invariant
            i <= ancestors@.len(),
            first_with_git(ancestors@, 0) == first_with_git(ancestors@, i as int),
        decreases ancestors.len() - i,
    {
        if ancestors[i].1 {
            return Ok(ancestors[i].0.clone());
        }
        i = i + 1;
    }
    let mut out: Vec<char> = Vec::new();
    push_str(&mut out, "not a git repository: ");
    let sc = chars_of(start);
    push_all(&mut out, sc.as_slice());
    Err(GitError::Failed { code: None, stderr: string_of(out.as_slice()) })
}

} // verus!

