//! Which file-system events call for a refresh.

use crate::text::{chars_of, contains, has_substring};
use vstd::prelude::*;

verus! {

/// Paths under build output, dependencies and git's object store.
pub open spec fn ignored_path(p: Seq<char>) -> bool {
    ||| contains(p, "/node_modules/"@)
    ||| contains(p, "/target/"@)
    ||| contains(p, "/.git/objects/"@)
    ||| contains(p, "/.git/lfs/"@)
}

/// Whether changes under `path` are ignored.
pub fn is_ignored(path: &str) -> (r: bool)
    ensures
        r == ignored_path(path@),
{
    let p = chars_of(path);
    let a = chars_of("/node_modules/");
    let b = chars_of("/target/");
    let c = chars_of("/.git/objects/");
    let d = chars_of("/.git/lfs/");
    has_substring(p.as_slice(), a.as_slice()) || has_substring(p.as_slice(), b.as_slice())
        || has_substring(p.as_slice(), c.as_slice()) || has_substring(p.as_slice(), d.as_slice())
}

/// A debounced file-system event: its path, and whether it reports a
/// change that is still going on.
pub struct WatchEvent {
    pub path: String,
    pub continuous: bool,
}

/// An event that calls for a refresh: a settled change outside the ignored
/// paths.
pub open spec fn relevant_event(e: WatchEvent) -> bool {
    !e.continuous && !ignored_path(e.path@)
}

/// Whether a batch of events calls for a refresh.
pub fn batch_is_relevant(events: &[WatchEvent]) -> (r: bool)
    ensures
        r == exists|i: int| 0 <= i < events@.len() && relevant_event(#[trigger] events@[i]),
{
    let mut i: usize = 0;
    while i < events.len()
        invariant
            i <= events@.len(),
            forall|k: int| 0 <= k < i ==> !relevant_event(#[trigger] events@[k]),
        decreases events.len() - i,
    {
        if !events[i].continuous && !is_ignored(events[i].path.as_str()) {
            assert(relevant_event(events@[i as int]));
            return true;
        }
        i = i + 1;
    }
    false
}

} // verus!
