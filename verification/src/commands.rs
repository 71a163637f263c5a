//! The computing parts of the application's commands.

use crate::git::ops::StatusBarInfo;
use crate::git::status::RepoStatus;
use crate::git::{GitError, GitOutput};
use crate::text::{chars_of, string_of};
use vstd::prelude::*;

verus! {

/// The outcome of a git command typed by the user.
#[derive(Debug, Clone)]
pub struct CustomGitResult {
    pub stdout: String,
    pub stderr: String,
    pub code: Option<i32>,
}

/// A typed command must name something to run.
pub fn check_custom_args(args: &[String]) -> (r: Result<(), GitError>)
    ensures
        args@.len() == 0 <==> (r matches Err(GitError::Failed { code: None, stderr: e }) && e@
            == "empty command"@),
        args@.len() > 0 <==> r is Ok,
{
    if args.len() == 0 {
        let m = chars_of("empty command");
        Err(GitError::Failed { code: None, stderr: string_of(m.as_slice()) })
    } else {
        Ok(())
    }
}

/// What the user sees of a typed command's run: its output and exit code
/// 0 where it succeeded, its error output and exit code where git failed;
/// other errors pass through.
pub fn custom_result(run: Result<GitOutput, GitError>) -> (r: Result<CustomGitResult, GitError>)
    ensures
        match run {
            Ok(o) => r matches Ok(c) && c.stdout == o.stdout && c.stderr == o.stderr && c.code
                == Some(0i32),
            Err(GitError::Failed { code, stderr }) => r matches Ok(c) && c.stdout@
                == Seq::<char>::empty() && c.stderr == stderr && c.code == code,
            Err(e) => r == Err::<CustomGitResult, GitError>(e),
        },
{
    match run {
        Ok(out) => Ok(CustomGitResult { stdout: out.stdout, stderr: out.stderr, code: Some(0) }),
        Err(GitError::Failed { code, stderr }) => Ok(
            CustomGitResult { stdout: String::new(), stderr, code },
        ),
        Err(e) => Err(e),
    }
}

/// The status bar of a repository status.
pub fn status_bar(s: RepoStatus) -> (r: StatusBarInfo)
    ensures
        r.branch == s.branch.name,
        r.ahead == s.branch.ahead,
        r.behind == s.branch.behind,
        r.staged_count == s.staged@.len(),
        r.unstaged_count == s.unstaged@.len(),
        r.untracked_count == s.untracked@.len(),
        r.sync_state@ == "idle"@,
{
    let staged_count = s.staged.len();
    let unstaged_count = s.unstaged.len();
    let untracked_count = s.untracked.len();
    let idle = chars_of("idle");
    StatusBarInfo {
        branch: s.branch.name,
        ahead: s.branch.ahead,
        behind: s.branch.behind,
        staged_count,
        unstaged_count,
        untracked_count,
        sync_state: string_of(idle.as_slice()),
    }
}

/// The most commits one history page holds.
pub fn log_page_limit(limit: usize) -> (r: usize)
    ensures
        r == if limit < 500 {
            limit
        } else {
            500
        },
{
    if limit < 500 {
        limit
    } else {
        500
    }
}

/// The most bytes a file preview reads: 64 KiB unless asked, never more
/// than 1 MiB.
pub fn preview_limit(max_bytes: Option<usize>) -> (r: usize)
    ensures
        r == match max_bytes {
            Some(m) => if m < 1048576 {
                m
            } else {
                1048576
            },
            None => 65536,
        },
{
    let m = match max_bytes {
        Some(m) => m,
        None => 65536,
    };
    if m < 1048576 {
        m
    } else {
        1048576
    }
}

} // verus!
