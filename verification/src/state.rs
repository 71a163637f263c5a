//! The repository that the application has open.

use crate::git::GitError;
use vstd::prelude::*;

verus! {

/// The application's state: the open repository, if any, and the git
/// binary in use.
pub struct AppState {
    pub repo: Option<String>,
    pub git_path: String,
}

/// What reading the open repository gives.
pub open spec fn current_of(repo: Option<String>) -> Result<String, GitError> {
    match repo {
        Some(p) => Ok(p),
        None => Err(GitError::NoRepo),
    }
}

impl AppState {
    /// No repository open; `git_path` names the git binary.
    pub fn new(git_path: String) -> (r: AppState)
        ensures
            r.repo is None,
            r.git_path == git_path,
    {
        AppState { repo: None, git_path }
    }

    /// The open repository, or `NoRepo`.
    pub fn current_repo(&self) -> (r: Result<String, GitError>)
        ensures
            r == current_of(self.repo),
    {
        match &self.repo {
            Some(p) => Ok(p.clone()),
            None => Err(GitError::NoRepo),
        }
    }

    /// Opens `path`.
    pub fn set_repo(&mut self, path: String)
        ensures
            final(self).repo == Some(path),
            final(self).git_path == old(self).git_path,
    {
        self.repo = Some(path);
    }

    /// Closes the open repository.
    pub fn clear_repo(&mut self)
        ensures
            final(self).repo is None,
            final(self).git_path == old(self).git_path,
    {
        self.repo = None;
    }
}

/// Reading the open repository gives back what was last opened, and
/// `NoRepo` once it is closed; the git binary never changes.
pub proof fn law_current_after_set_and_clear(s: AppState, path: String, opened: AppState, closed: AppState)
    requires
        opened.repo == Some(path) && opened.git_path == s.git_path,
        closed.repo is None && closed.git_path == opened.git_path,
    ensures
        current_of(opened.repo) == Ok::<String, GitError>(path),
        current_of(closed.repo) == Err::<String, GitError>(GitError::NoRepo),
        closed.git_path == s.git_path,
{
}

} // verus!
