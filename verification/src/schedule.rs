//! The worker protocol and the match aggregator: workers draw work from a
//! shared pool and report their findings to a single aggregation point; the
//! first error wins and ends the run.

use vstd::prelude::*;

use crate::engine::{matches_view, sort_matches, sorted_by_pos, Match, SearchError};
use crate::prose::{ProseOff, Work};

verus! {

/// A worker's lifecycle: idle between work items, searching one partition,
/// or stopped for good.
#[derive(Clone, Copy, Debug, PartialEq, Eq, Structural)]
pub enum WorkerState {
    Idle,
    Searching,
    Stopped,
}

/// What a worker observes: the outcome of a draw from the shared pool, or the
/// outcome of the search it was running.
pub enum WorkerEvent {
    StealEmpty,
    StealRetry,
    Stolen(Work),
    SearchDone,
    SearchFailed,
}

/// What a worker does next: draw again (backing off on an empty pool), search
/// one work item, or close its output and stop.
pub enum WorkerAction {
    Poll,
    Search(ProseOff),
    Close,
}

/// The worker state machine. An idle worker polls until it steals work: a
/// partition moves it to searching, the quit signal stops it. A finished
/// search returns it to idle; a failed search stops it, so a worker that saw
/// an error draws no further work. Stopped is absorbing.
pub open spec fn spec_worker_step(state: WorkerState, ev: WorkerEvent) -> (
    WorkerState,
    WorkerAction,
) {
    match state {
        WorkerState::Stopped => (WorkerState::Stopped, WorkerAction::Close),
        WorkerState::Idle => match ev {
            WorkerEvent::Stolen(Work::Quit) => (WorkerState::Stopped, WorkerAction::Close),
            WorkerEvent::Stolen(Work::Prose(p)) => (
                WorkerState::Searching,
                WorkerAction::Search(p),
            ),
            _ => (WorkerState::Idle, WorkerAction::Poll),
        },
        WorkerState::Searching => match ev {
            WorkerEvent::SearchDone => (WorkerState::Idle, WorkerAction::Poll),
            WorkerEvent::SearchFailed => (WorkerState::Stopped, WorkerAction::Close),
            _ => (WorkerState::Searching, WorkerAction::Poll),
        },
    }
}

/// Advance one worker by one observed event.
pub fn worker_step(state: WorkerState, ev: WorkerEvent) -> (r: (WorkerState, WorkerAction))
    ensures
        r == spec_worker_step(state, ev),
        state is Stopped ==> r.0 is Stopped,
        state is Searching && ev is SearchFailed ==> r.0 is Stopped,
{
    match state {
        WorkerState::Stopped => (WorkerState::Stopped, WorkerAction::Close),
        WorkerState::Idle => match ev {
            WorkerEvent::Stolen(Work::Quit) => (WorkerState::Stopped, WorkerAction::Close),
            WorkerEvent::Stolen(Work::Prose(p)) => (
                WorkerState::Searching,
                WorkerAction::Search(p),
            ),
            _ => (WorkerState::Idle, WorkerAction::Poll),
        },
        WorkerState::Searching => match ev {
            WorkerEvent::SearchDone => (WorkerState::Idle, WorkerAction::Poll),
            WorkerEvent::SearchFailed => (WorkerState::Stopped, WorkerAction::Close),
            _ => (WorkerState::Searching, WorkerAction::Poll),
        },
    }
}

/// One message to the aggregation point: a batch of matches from one
/// partition, a worker's failure, or a worker's completion signal.
pub enum AggMsg {
    Batch(Vec<Match>),
    Failed(SearchError),
    Done,
}

/// The single aggregation point of one run: collects the workers' match
/// batches, keeps the first error, counts finished workers.
pub struct Aggregator {
    pub matches: Vec<Match>,
    pub failure: Option<SearchError>,
    pub done: usize,
    pub expected: usize,
}

impl Aggregator {
    /// An aggregator awaiting `expected` worker completions.
    pub fn new(expected: usize) -> (a: Aggregator)
        ensures
            a.matches@.len() == 0,
            a.failure is None,
            a.done == 0,
            a.expected == expected,
    {
        Aggregator { matches: Vec::new(), failure: None, done: 0, expected }
    }

    /// Take one message: a batch is appended, unless the run has already
    /// failed, when it is discarded; the first failure is kept and later ones
    /// dropped (exactly one error surfaces); a completion is counted.
    pub fn accept(&mut self, msg: AggMsg)
        requires
            old(self).done < old(self).expected,
        ensures
            final(self).expected == old(self).expected,
            msg matches AggMsg::Batch(b) ==> final(self).done == old(self).done
                && final(self).failure == old(self).failure
                && (old(self).failure is None ==> final(self).matches@ == old(self).matches@ + b@)
                && (old(self).failure is Some ==> final(self).matches@ == old(self).matches@),
            msg matches AggMsg::Failed(e) ==> final(self).done == old(self).done
                && final(self).matches@ == old(self).matches@
                && final(self).failure == Some(
                if old(self).failure is Some {
                    old(self).failure->0
                } else {
                    e
                }),
            msg is Done ==> final(self).done == old(self).done + 1
                && final(self).failure == old(self).failure
                && final(self).matches@ == old(self).matches@,
    {
        match msg {
            AggMsg::Batch(b) => {
                if self.failure.is_none() {
                    let mut bb = b;
                    self.matches.append(&mut bb);
                }
            },
            AggMsg::Failed(e) => {
                if self.failure.is_none() {
                    self.failure = Some(e);
                }
            },
            AggMsg::Done => {
                self.done = self.done + 1;
            },
        }
    }

    /// Whether every worker has reported completion.
    pub fn is_finished(&self) -> (r: bool)
        ensures
            r == (self.done >= self.expected),
    {
        self.done >= self.expected
    }

    /// Close the aggregation: the first error if any worker failed, else all
    /// collected matches, sorted by line and column.
    pub fn finish(self) -> (r: Result<Vec<Match>, SearchError>)
        ensures
            self.failure matches Some(e) ==> r == Err::<Vec<Match>, SearchError>(e),
            self.failure is None ==> r is Ok,
            r matches Ok(v) ==> sorted_by_pos(matches_view(v@)) && matches_view(
                v@,
            ).to_multiset() == matches_view(self.matches@).to_multiset(),
    {
        match self.failure {
            Some(e) => Err(e),
            None => Ok(sort_matches(self.matches)),
        }
    }
}

} // verus!
