//! Which git commands the console records, and what it records of them.

use crate::git::diff::{diff_args, numstat_args, show_args};
use crate::git::ops::{
    branch_list_args, checkout_args, commit_args, commit_files_args, count_args,
    create_branch_args, current_branch_args, delete_branch_args, fetch_args, log_args, pull_args,
    push_args, stage_all_args, stash_args, stash_list_args, stash_push_args, unstage_all_args,
    with_paths,
};
use crate::git::status::status_args;
use crate::git::GitOutput;
use crate::text::{chars_of, push_all, push_str, same_chars, string_of};
use vstd::prelude::*;

verus! {

/// One recorded git run.
#[derive(Debug, Clone)]
pub struct GitLogEntry {
    pub cmd: String,
    pub stdout: String,
    pub stderr: String,
    pub code: Option<i32>,
    pub ts: u64,
}

/// The characters of each argument.
pub open spec fn arg_views(args: Seq<&str>) -> Seq<Seq<char>> {
    args.map_values(|a: &str| a@)
}

/// The read-only subcommands that every refresh runs.
pub open spec fn is_refresh_command(c: Seq<char>) -> bool {
    ||| c == "status"@
    ||| c == "diff"@
    ||| c == "show"@
    ||| c == "ls-files"@
    ||| c == "log"@
    ||| c == "for-each-ref"@
    ||| c == "rev-list"@
    ||| c == "cat-file"@
    ||| c == "diff-tree"@
    ||| c == "check-ignore"@
}

/// A command the console does not record: a refresh command,
/// `branch --show-current` or `stash list`.
pub open spec fn is_quiet(args: Seq<Seq<char>>) -> bool {
    let first = if args.len() > 0 {
        args[0]
    } else {
        ""@
    };
    ||| is_refresh_command(first)
    ||| (first == "branch"@ && args.contains("--show-current"@))
    ||| (first == "stash"@ && args.len() > 1 && args[1] == "list"@)
}

fn is_word(a: &str, w: &str) -> (r: bool)
    ensures
        r == (a@ == w@),
{
    let x = chars_of(a);
    let y = chars_of(w);
    same_chars(x.as_slice(), y.as_slice())
}

/// Read-only commands that run on every refresh are not logged — the
/// console records mutating / user-triggered operations only.
pub fn quiet(args: &[&str]) -> (r: bool)
    ensures
        r == is_quiet(arg_views(args@)),
{
    let ghost av = arg_views(args@);
    let first: &str = if args.len() > 0 {
        args[0]
    } else {
        ""
    };
    assert(first@ == (if av.len() > 0 {
        av[0]
    } else {
        ""@
    }));
    if is_word(first, "status") || is_word(first, "diff") || is_word(first, "show") || is_word(
        first,
        "ls-files",
    ) || is_word(first, "log") || is_word(first, "for-each-ref") || is_word(first, "rev-list")
        || is_word(first, "cat-file") || is_word(first, "diff-tree") || is_word(
        first,
        "check-ignore",
    ) {
        return true;
    }
    if is_word(first, "branch") {
        let mut i: usize = 0;
        while i < args.len()
            invariant
                i <= args@.len(),
                av == arg_views(args@),
                (if av.len() > 0 {
                    av[0]
                } else {
                    ""@
                }) == "branch"@,
                forall|k: int| 0 <= k < i ==> av[k] != "--show-current"@,
            decreases args.len() - i,
        {
            if is_word(args[i], "--show-current") {
                assert(av[i as int] == "--show-current"@);
                assert(av.contains("--show-current"@));
                return true;
            }
            i = i + 1;
        }
        assert(!av.contains("--show-current"@));
    }
    is_word(first, "stash") && args.len() > 1 && is_word(args[1], "list")
}

/// The arguments joined by single spaces.
pub open spec fn joined(args: Seq<Seq<char>>) -> Seq<char>
    decreases args.len(),
{
    if args.len() == 0 {
        seq![]
    } else if args.len() == 1 {
        args[0]
    } else {
        joined(args.drop_last()) + seq![' '] + args.last()
    }
}

/// The command line as the console shows it: `git` and the arguments.
pub fn command_line(args: &[&str]) -> (r: String)
    ensures
        r@ == "git "@ + joined(arg_views(args@)),
{
    let ghost av = arg_views(args@);
    let mut out: Vec<char> = Vec::new();
    push_str(&mut out, "git ");
    let ghost head = out@;
    let mut i: usize = 0;
    while i < args.len()
        invariant
            i <= args@.len(),
            av == arg_views(args@),
            out@ == head + joined(av.take(i as int)),
        decreases args.len() - i,
    {
        if i > 0 {
            out.push(' ');
        }
        let a = chars_of(args[i]);
        push_all(&mut out, a.as_slice());
        proof {
            assert(av.take(i + 1).drop_last() =~= av.take(i as int));
            assert(av.take(i + 1).last() == av[i as int]);
            if i == 0 {
                assert(av.take(1) =~= seq![av[0]]);
            }
            assert(out@ =~= head + joined(av.take(i + 1)));
        }
        i = i + 1;
    }
    assert(av.take(args@.len() as int) =~= av);
    string_of(out.as_slice())
}

/// What the console records of a git run: nothing for a quiet command
/// unless `force`, else the command line, the output, the exit code and
/// the time `ts` (milliseconds since the epoch).
pub fn log_git(args: &[&str], out: &GitOutput, code: Option<i32>, force: bool, ts: u64) -> (r:
    Option<GitLogEntry>)
    ensures
        r is None <==> (!force && is_quiet(arg_views(args@))),
        r matches Some(e) ==> {
            &&& e.cmd@ == "git "@ + joined(arg_views(args@))
            &&& e.stdout@ == out.stdout@
            &&& e.stderr@ == out.stderr@
            &&& e.code == code
            &&& e.ts == ts
        },
{
    if !force && quiet(args) {
        return None;
    }
    Some(
        GitLogEntry {
            cmd: command_line(args),
            stdout: out.stdout.clone(),
            stderr: out.stderr.clone(),
            code,
            ts,
        },
    )
}


/// The queries that a refresh runs, whatever their arguments, are quiet.
pub proof fn law_refresh_queries_are_quiet(
    rel: Seq<char>,
    staged: bool,
    hash: Seq<char>,
    limit: nat,
    skip: nat,
    range: Seq<char>,
)
    ensures
        is_quiet(status_args()),
        is_quiet(branch_list_args()),
        is_quiet(current_branch_args()),
        is_quiet(stash_list_args()),
        is_quiet(diff_args(rel, staged)),
        is_quiet(numstat_args(rel, staged)),
        is_quiet(show_args(hash, rel)),
        is_quiet(log_args(limit, skip)),
        is_quiet(commit_files_args(hash)),
        is_quiet(count_args(range)),
{
    assert(current_branch_args()[1] == "--show-current"@);
    assert(current_branch_args().contains("--show-current"@));
}

/// The first word of a command that changes the repository.
pub open spec fn is_operation_word(w: Seq<char>) -> bool {
    ||| w == "add"@
    ||| w == "reset"@
    ||| w == "checkout"@
    ||| w == "clean"@
    ||| w == "commit"@
    ||| w == "fetch"@
    ||| w == "pull"@
    ||| w == "push"@
    ||| w == "branch"@
    ||| w == "stash"@
}

/// The length and first two characters of the words that the console
/// tells apart.
proof fn lemma_word_shapes()
    ensures
        "add"@.len() == 3 && "add"@[0] == 'a' && "add"@[1] == 'd',
        "reset"@.len() == 5 && "reset"@[0] == 'r' && "reset"@[1] == 'e',
        "checkout"@.len() == 8 && "checkout"@[0] == 'c' && "checkout"@[1] == 'h',
        "clean"@.len() == 5 && "clean"@[0] == 'c' && "clean"@[1] == 'l',
        "commit"@.len() == 6 && "commit"@[0] == 'c' && "commit"@[1] == 'o',
        "fetch"@.len() == 5 && "fetch"@[0] == 'f' && "fetch"@[1] == 'e',
        "pull"@.len() == 4 && "pull"@[0] == 'p' && "pull"@[1] == 'u',
        "push"@.len() == 4 && "push"@[0] == 'p' && "push"@[1] == 'u',
        "branch"@.len() == 6 && "branch"@[0] == 'b' && "branch"@[1] == 'r',
        "stash"@.len() == 5 && "stash"@[0] == 's' && "stash"@[1] == 't',
        "status"@.len() == 6 && "status"@[0] == 's' && "status"@[1] == 't',
        "diff"@.len() == 4 && "diff"@[0] == 'd' && "diff"@[1] == 'i',
        "show"@.len() == 4 && "show"@[0] == 's' && "show"@[1] == 'h',
        "ls-files"@.len() == 8 && "ls-files"@[0] == 'l' && "ls-files"@[1] == 's',
        "log"@.len() == 3 && "log"@[0] == 'l' && "log"@[1] == 'o',
        "for-each-ref"@.len() == 12 && "for-each-ref"@[0] == 'f' && "for-each-ref"@[1] == 'o',
        "rev-list"@.len() == 8 && "rev-list"@[0] == 'r' && "rev-list"@[1] == 'e',
        "cat-file"@.len() == 8 && "cat-file"@[0] == 'c' && "cat-file"@[1] == 'a',
        "diff-tree"@.len() == 9 && "diff-tree"@[0] == 'd' && "diff-tree"@[1] == 'i',
        "check-ignore"@.len() == 12 && "check-ignore"@[0] == 'c' && "check-ignore"@[1] == 'h',
        "list"@.len() == 4 && "list"@[0] == 'l' && "list"@[1] == 'i',
        "apply"@.len() == 5 && "apply"@[0] == 'a' && "apply"@[1] == 'p',
        "pop"@.len() == 3 && "pop"@[0] == 'p' && "pop"@[1] == 'o',
        "drop"@.len() == 4 && "drop"@[0] == 'd' && "drop"@[1] == 'r',
        "--show-current"@.len() == 14 && "--show-current"@[0] == '-' && "--show-current"@[1] == '-',
        "-d"@.len() == 2 && "-d"@[0] == '-' && "-d"@[1] == 'd',
        "-D"@.len() == 2 && "-D"@[0] == '-' && "-D"@[1] == 'D',
{
    reveal_strlit("add");
    reveal_strlit("reset");
    reveal_strlit("checkout");
    reveal_strlit("clean");
    reveal_strlit("commit");
    reveal_strlit("fetch");
    reveal_strlit("pull");
    reveal_strlit("push");
    reveal_strlit("branch");
    reveal_strlit("stash");
    reveal_strlit("status");
    reveal_strlit("diff");
    reveal_strlit("show");
    reveal_strlit("ls-files");
    reveal_strlit("log");
    reveal_strlit("for-each-ref");
    reveal_strlit("rev-list");
    reveal_strlit("cat-file");
    reveal_strlit("diff-tree");
    reveal_strlit("check-ignore");
    reveal_strlit("list");
    reveal_strlit("apply");
    reveal_strlit("pop");
    reveal_strlit("drop");
    reveal_strlit("--show-current");
    reveal_strlit("-d");
    reveal_strlit("-D");
}

proof fn lemma_operation_word_not_refresh(w: Seq<char>)
    requires
        is_operation_word(w),
    ensures
        !is_refresh_command(w),
{
    lemma_word_shapes();
}

/// A command that starts with an operation word is logged, as long as a
/// `branch` command does not hold `--show-current` and a `stash` command
/// is not `stash list`.
proof fn lemma_operation_logged(args: Seq<Seq<char>>)
    requires
        args.len() > 0,
        is_operation_word(args[0]),
        args[0] == "branch"@ ==> !args.contains("--show-current"@),
        args[0] == "stash"@ ==> args.len() > 1 && args[1] != "list"@,
    ensures
        !is_quiet(args),
{
    lemma_operation_word_not_refresh(args[0]);
}

/// The console records every operation that changes the repository: the
/// commands that stage, unstage, discard, clean, commit, fetch, pull,
/// push, check out, create or delete a branch, and create, apply, pop or
/// drop a stash. A branch named `--show-current` is left out: its
/// `branch` command reads as the query.
pub proof fn law_operations_are_logged(
    args: Seq<Seq<char>>,
    repo: Seq<char>,
    paths: Seq<Seq<char>>,
    message: Seq<char>,
    amend: bool,
    remote: Option<Seq<char>>,
    set_upstream: bool,
    branch: Seq<char>,
    name: Seq<char>,
    checkout: bool,
    force: bool,
    stash_message: Option<Seq<char>>,
    include_untracked: bool,
    index: nat,
)
    requires
        name != "--show-current"@,
    ensures
        with_paths(args, seq!["add"@, "--"@], repo, paths) ==> !is_quiet(args),
        with_paths(args, seq!["reset"@, "HEAD"@, "--"@], repo, paths) ==> !is_quiet(args),
        with_paths(args, seq!["checkout"@, "--"@], repo, paths) ==> !is_quiet(args),
        with_paths(args, seq!["clean"@, "-f"@, "--"@], repo, paths) ==> !is_quiet(args),
        !is_quiet(stage_all_args()),
        !is_quiet(unstage_all_args()),
        !is_quiet(commit_args(message, amend)),
        !is_quiet(fetch_args(remote)),
        !is_quiet(pull_args()),
        !is_quiet(push_args(set_upstream, branch)),
        !is_quiet(checkout_args(name)),
        !is_quiet(create_branch_args(name, checkout)),
        !is_quiet(delete_branch_args(name, force)),
        !is_quiet(stash_push_args(stash_message, include_untracked)),
        !is_quiet(stash_args("apply"@, index)),
        !is_quiet(stash_args("pop"@, index)),
        !is_quiet(stash_args("drop"@, index)),
{
    lemma_word_shapes();
    let prefixes: Seq<Seq<Seq<char>>> = seq![
        seq!["add"@, "--"@],
        seq!["reset"@, "HEAD"@, "--"@],
        seq!["checkout"@, "--"@],
        seq!["clean"@, "-f"@, "--"@],
    ];
    assert forall|k: int| 0 <= k < 4 && with_paths(args, #[trigger] prefixes[k], repo, paths) implies !is_quiet(
        args,
    ) by {
        let p = prefixes[k];
        assert(args[0] == args.subrange(0, p.len() as int)[0]);
        lemma_operation_logged(args);
    }
    assert(prefixes[0] == seq!["add"@, "--"@]);
    assert(prefixes[1] == seq!["reset"@, "HEAD"@, "--"@]);
    assert(prefixes[2] == seq!["checkout"@, "--"@]);
    assert(prefixes[3] == seq!["clean"@, "-f"@, "--"@]);
    lemma_operation_logged(stage_all_args());
    lemma_operation_logged(unstage_all_args());
    lemma_operation_logged(commit_args(message, amend));
    lemma_operation_logged(fetch_args(remote));
    lemma_operation_logged(pull_args());
    lemma_operation_logged(push_args(set_upstream, branch));
    lemma_operation_logged(checkout_args(name));
    let cb = create_branch_args(name, checkout);
    if !checkout {
        assert(!cb.contains("--show-current"@)) by {
            if cb.contains("--show-current"@) {
                let j = choose|j: int| 0 <= j < cb.len() && cb[j] == "--show-current"@;
                assert(j == 0 || j == 1);
            }
        }
    }
    lemma_operation_logged(cb);
    let db = delete_branch_args(name, force);
    assert(!db.contains("--show-current"@)) by {
        if db.contains("--show-current"@) {
            let j = choose|j: int| 0 <= j < db.len() && db[j] == "--show-current"@;
            assert(j == 0 || j == 1 || j == 2);
            if j == 1 {
                assert(db[1].len() == 2);
            }
        }
    }
    lemma_operation_logged(db);
    let sp = stash_push_args(stash_message, include_untracked);
    assert(sp[0] == "stash"@ && sp[1] == "push"@);
    lemma_operation_logged(sp);
    lemma_operation_logged(stash_args("apply"@, index));
    lemma_operation_logged(stash_args("pop"@, index));
    lemma_operation_logged(stash_args("drop"@, index));
}

} // verus!
