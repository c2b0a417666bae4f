//! Small values exchanged with the macOS side: pasteboard change tracking,
//! window events, close results and opened projects.

use std::collections::HashSet;
use vstd::prelude::*;

verus! {

/// The outcome of asking an application to close a window.
#[derive(Debug, PartialEq, Eq, Structural)]
pub enum CloseResult {
    Requested,
    Skipped,
    Failed,
}

/// An accessibility notification about an application's windows.
#[derive(Debug, PartialEq, Eq, Structural)]
pub enum WindowEvent {
    FocusChanged,
    Destroyed(u64),
}

/// A project window that finished opening.
#[derive(Debug, PartialEq, Eq, Structural)]
pub struct OpenedProject {
    pub pid: i32,
    pub window: Option<u64>,
}

/// Tracks the pasteboard's change count to notice new clipboard contents.
pub struct Observer {
    count: isize,
}

impl View for Observer {
    type V = isize;

    closed spec fn view(&self) -> isize {
        self.count
    }
}

impl Observer {
    /// Starts from the pasteboard's current change count.
    pub fn new(count: isize) -> (observer: Self)
        ensures
            observer@ == count,
    {
        Observer { count }
    }

    /// Whether the pasteboard changed since the count was last taken.
    pub fn changed(&self, count: isize) -> (changed: bool)
        ensures
            changed == (self@ != count),
    {
        self.count != count
    }

    pub fn reset(&mut self, count: isize)
        ensures
            final(self)@ == count,
    {
        self.count = count;
    }

    /// Takes a new change count: true, remembering it, when it differs from
    /// the last one; false, changing nothing, otherwise.
    pub fn observe(&mut self, count: isize) -> (fresh: bool)
        ensures
            fresh == (old(self)@ != count),
            final(self)@ == count,
    {
        if count == self.count {
            return false;
        }
        self.count = count;
        true
    }
}

/// How many recently used windows are remembered.
pub const RECENT_WINDOW_LIMIT: usize = 128;

/// The first occurrence of each window id among the first `n`, in order.
pub open spec fn first_occurrences(ids: Seq<u64>, n: int) -> Seq<u64>
    decreases n,
{
    if n <= 0 {
        seq![]
    } else {
        let r = first_occurrences(ids, n - 1);
        if r.contains(ids[n - 1]) {
            r
        } else {
            r.push(ids[n - 1])
        }
    }
}

/// The stored list of recently used windows, without repeats (the first
/// occurrence stays) and cut to `RECENT_WINDOW_LIMIT` entries.
pub open spec fn recent_windows_spec(stored: Seq<u64>) -> Seq<u64> {
    let r = first_occurrences(stored, stored.len() as int);
    if r.len() > RECENT_WINDOW_LIMIT {
        r.take(RECENT_WINDOW_LIMIT as int)
    } else {
        r
    }
}

/// Cleans a stored list of recently used window ids.
pub fn recent_windows(stored: &[u64]) -> (recent: Vec<u64>)
    ensures
        recent@ == recent_windows_spec(stored@),
{
    broadcast use vstd::std_specs::hash::group_hash_axioms;

    let mut recent: Vec<u64> = Vec::new();
    let mut seen: HashSet<u64> = HashSet::new();
    let mut i: usize = 0;
    while i < stored.len()
        invariant
            i <= stored@.len(),
            recent@ == first_occurrences(stored@, i as int),
            forall|id: u64| #[trigger] seen@.contains(id) <==> recent@.contains(id),
        decreases stored.len() - i,
    {
        let id = stored[i];
        if seen.insert(id) {
            recent.push(id);
            proof {
                assert forall|x: u64| #[trigger] seen@.contains(x) <==> recent@.contains(x) by {
                    if x != id && recent@.contains(x) {
                        let k = choose|k: int| 0 <= k < recent@.len() && recent@[k] == x;
                        assert(k < recent@.len() - 1);
                        assert(recent@.drop_last()[k] == x);
                    }
                    if x == id {
                        assert(recent@[recent@.len() - 1] == x);
                    }
                    if x != id && seen@.contains(x) {
                        let k = choose|k: int| 0 <= k < first_occurrences(stored@, i as int).len() && first_occurrences(stored@, i as int)[k] == x;
                        assert(recent@[k] == x);
                    }
                }
            }
        }
        i += 1;
    }
    if recent.len() > RECENT_WINDOW_LIMIT {
        recent.truncate(RECENT_WINDOW_LIMIT);
    }
    recent
}

} // verus!
