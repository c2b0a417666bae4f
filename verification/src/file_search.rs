//! The pacing of a Spotlight file search: when new results are read, how
//! long one batch of reading may take, and when a search that keeps
//! gathering gives up. Times are nanoseconds since the search started.

use vstd::prelude::*;

verus! {

/// The least time between two reads of the results.
pub const READ_INTERVAL_NS: u64 = 100_000_000;

/// How long one batch of reading may take.
pub const READ_BUDGET_NS: u64 = 2_000_000_000;

/// How long a search may keep gathering before it gives up.
pub const GATHER_LIMIT_NS: u64 = 12_000_000_000;

/// When the results were last read, if ever.
pub struct SearchState {
    pub last_read_ns: Option<u64>,
}

/// What happened in the search loop.
pub enum SearchEvent {
    /// The loop comes round: whether results changed since they were last
    /// read, and whether a newer search replaced this one.
    Poll { now_ns: u64, dirty: bool, cancelled: bool },
    /// A batch of results was read and sent.
    BatchSent { now_ns: u64 },
    /// The wait on the run loop is over; whether Spotlight is still gathering.
    Waited { now_ns: u64, gathering: bool },
}

/// What the search loop does next.
#[derive(Clone, Copy, Debug, PartialEq, Eq, Structural)]
pub enum SearchAction {
    /// Leave the loop: the search was replaced.
    Stop,
    /// Read the results, item by item, until `deadline_ns`.
    Read { deadline_ns: u64 },
    /// Wait on the run loop for more results.
    Wait,
    /// Report that the search did not finish, and leave the loop.
    GiveUp,
}

pub open spec fn start_search() -> SearchState {
    SearchState { last_read_ns: None }
}

/// Enough time has passed since the last read (a search that never read is
/// always ready).
pub open spec fn read_due(s: SearchState, now_ns: u64) -> bool {
    match s.last_read_ns {
        None => true,
        Some(last) => now_ns >= last + READ_INTERVAL_NS,
    }
}

pub open spec fn read_deadline(now_ns: u64) -> u64 {
    if now_ns + READ_BUDGET_NS > u64::MAX {
        u64::MAX
    } else {
        (now_ns + READ_BUDGET_NS) as u64
    }
}

/// One step of the search loop.
pub open spec fn search_step_spec(s: SearchState, e: SearchEvent) -> (SearchState, SearchAction) {
    match e {
        SearchEvent::Poll { now_ns, dirty, cancelled } => if cancelled {
            (s, SearchAction::Stop)
        } else if dirty && read_due(s, now_ns) {
            (s, SearchAction::Read { deadline_ns: read_deadline(now_ns) })
        } else {
            (s, SearchAction::Wait)
        },
        SearchEvent::BatchSent { now_ns } => (SearchState { last_read_ns: Some(now_ns) }, SearchAction::Wait),
        SearchEvent::Waited { now_ns, gathering } => if gathering && now_ns > GATHER_LIMIT_NS {
            (s, SearchAction::GiveUp)
        } else {
            (s, SearchAction::Wait)
        },
    }
}

/// The state of a search that has read nothing yet.
pub fn start() -> (s: SearchState)
    ensures
        s == start_search(),
{
    SearchState { last_read_ns: None }
}

/// Decides the next step of the search loop.
pub fn search_step(state: SearchState, event: SearchEvent) -> (r: (SearchState, SearchAction))
    ensures
        r == search_step_spec(state, event),
{
    match event {
        SearchEvent::Poll { now_ns, dirty, cancelled } => {
            if cancelled {
                return (state, SearchAction::Stop);
            }
            let due = match state.last_read_ns {
                None => true,
                Some(last) => last <= u64::MAX - READ_INTERVAL_NS && now_ns >= last + READ_INTERVAL_NS,
            };
            if dirty && due {
                (state, SearchAction::Read { deadline_ns: now_ns.saturating_add(READ_BUDGET_NS) })
            } else {
                (state, SearchAction::Wait)
            }
        },
        SearchEvent::BatchSent { now_ns } => (SearchState { last_read_ns: Some(now_ns) }, SearchAction::Wait),
        SearchEvent::Waited { now_ns, gathering } => {
            if gathering && now_ns > GATHER_LIMIT_NS {
                (state, SearchAction::GiveUp)
            } else {
                (state, SearchAction::Wait)
            }
        },
    }
}

/// Whether reading one more result of a batch goes on: the search was not
/// replaced and the batch's deadline has not passed.
pub fn keep_reading(cancelled: bool, now_ns: u64, deadline_ns: u64) -> (r: bool)
    ensures
        r == (!cancelled && now_ns < deadline_ns),
{
    !cancelled && now_ns < deadline_ns
}

/// The entries shown for an empty query: the recent ones, or the fallback
/// folders when no recent entry remains.
pub fn empty_query_entries<T>(recent: Vec<T>, fallback: Vec<T>) -> (r: Vec<T>)
    ensures
        r@ == if recent@.len() > 0 {
            recent@
        } else {
            fallback@
        },
{
    if recent.len() > 0 {
        recent
    } else {
        fallback
    }
}

/// Results are never read twice within `READ_INTERVAL_NS`, and a replaced
/// search always stops.
pub proof fn lemma_reads_are_spaced(sent_ns: u64, now_ns: u64, dirty: bool, cancelled: bool)
    ensures
        now_ns < sent_ns + READ_INTERVAL_NS ==> !(search_step_spec(
            SearchState { last_read_ns: Some(sent_ns) },
            SearchEvent::Poll { now_ns, dirty, cancelled },
        ).1 is Read),
        cancelled ==> search_step_spec(
            SearchState { last_read_ns: Some(sent_ns) },
            SearchEvent::Poll { now_ns, dirty, cancelled },
        ).1 == SearchAction::Stop,
{
}

} // verus!
