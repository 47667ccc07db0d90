//! Decisions of the bounded background work coordinator: the
//! rollover-safe generation clock, cooperative cancellation, submission
//! admission under the queue and byte budgets, and the typed outcomes.
use vstd::prelude::*;

use std::sync::atomic::{AtomicBool, Ordering};
use std::sync::Arc;

use crate::strings::{push_decimal, push_str, spec_decimal};

verus! {

/// Fixed number of background workers.
pub const WORKER_COUNT: usize = 2;

/// Maximum number of waiting requests and waiting completions.
pub const QUEUE_CAPACITY: usize = 8;

/// Maximum bytes owned by waiting or running requests and queued outputs.
pub const MAX_IN_FLIGHT_BYTES: usize = 67_108_864;

/// A rollover-safe identifier for one application-state generation.
#[derive(Clone, Copy, Debug, PartialEq, Eq, Structural, Hash)]
pub struct Generation {
    epoch: u64,
    sequence: u64,
}

/// Generations in the order the clock produces them.
pub open spec fn generation_before(a: Generation, b: Generation) -> bool {
    a.spec_epoch() < b.spec_epoch() || (a.spec_epoch() == b.spec_epoch() && a.spec_sequence() < b.spec_sequence())
}

/// The generation after `g`: the sequence counts up, and at its maximum
/// the epoch advances with the sequence back at zero; none remains once
/// both are at their maximum.
pub open spec fn spec_next(g: Generation) -> Option<(u64, u64)> {
    if g.spec_sequence() == u64::MAX {
        if g.spec_epoch() == u64::MAX {
            None
        } else {
            Some(((g.spec_epoch() + 1) as u64, 0u64))
        }
    } else {
        Some((g.spec_epoch(), (g.spec_sequence() + 1) as u64))
    }
}

impl Generation {
    pub closed spec fn spec_epoch(self) -> u64 {
        self.epoch
    }

    pub closed spec fn spec_sequence(self) -> u64 {
        self.sequence
    }

    /// A generation from its parts.
    pub fn from_parts(epoch: u64, sequence: u64) -> (g: Generation)
        ensures
            g.spec_epoch() == epoch,
            g.spec_sequence() == sequence,
    {
        Generation { epoch, sequence }
    }

    /// The first generation.
    pub fn first() -> (g: Generation)
        ensures
            g.spec_epoch() == 0,
            g.spec_sequence() == 0,
    {
        Generation { epoch: 0, sequence: 0 }
    }

    /// The generation after this one, if the clock is not exhausted.
    pub fn next(self) -> (r: Option<Generation>)
        ensures
            match r {
                Some(n) => spec_next(self) == Some((n.spec_epoch(), n.spec_sequence())),
                None => spec_next(self) is None,
            },
    {
        if self.sequence == u64::MAX {
            if self.epoch == u64::MAX {
                None
            } else {
                Some(Generation { epoch: self.epoch + 1, sequence: 0 })
            }
        } else {
            Some(Generation { epoch: self.epoch, sequence: self.sequence + 1 })
        }
    }
}

impl Default for Generation {
    fn default() -> (g: Self)
        ensures
            g.spec_epoch() == 0,
            g.spec_sequence() == 0,
    {
        Generation { epoch: 0, sequence: 0 }
    }
}

/// Each advance of the clock yields a strictly later generation, so an old
/// completion can never pass for a new one; the clock stops only when both
/// parts are exhausted.
pub proof fn lemma_next_is_later(g: Generation)
    ensures
        spec_next(g) matches Some((e, s)) ==> generation_before(g, Generation::from_parts_spec(e, s)),
        spec_next(g) is None <==> (g.spec_epoch() == u64::MAX && g.spec_sequence() == u64::MAX),
{
}

/// Later-than is transitive, so every generation after several advances
/// differs from every earlier one.
pub proof fn lemma_before_transitive(a: Generation, b: Generation, c: Generation)
    requires
        generation_before(a, b),
        generation_before(b, c),
    ensures
        generation_before(a, c),
        a != c,
{
}

impl Generation {
    /// The generation with these parts.
    pub closed spec fn from_parts_spec(epoch: u64, sequence: u64) -> Generation {
        Generation { epoch, sequence }
    }
}

/// The generation clock exhausted both of its components.
#[derive(Clone, Copy, Debug, PartialEq, Eq, Structural)]
pub struct GenerationExhausted;

impl GenerationExhausted {
    /// The text of this failure.
    pub fn message(&self) -> (m: &'static str)
        ensures
            m@ == "worker generation counter is exhausted"@,
    {
        "worker generation counter is exhausted"
    }
}

/// Cooperative cancellation signal supplied to every task: set when its
/// generation was superseded or when the coordinator shuts down.
#[derive(Clone, Debug)]
pub struct CancellationToken {
    cancelled: Arc<AtomicBool>,
    shutdown: Arc<AtomicBool>,
}

impl CancellationToken {
    /// The generation flag this token observes.
    pub closed spec fn spec_cancelled(&self) -> Arc<AtomicBool> {
        self.cancelled
    }

    /// The shutdown flag this token observes.
    pub closed spec fn spec_shutdown(&self) -> Arc<AtomicBool> {
        self.shutdown
    }

    /// A token observing a generation flag and the shutdown flag.
    pub fn new(cancelled: Arc<AtomicBool>, shutdown: Arc<AtomicBool>) -> (t: CancellationToken)
        ensures
            t.spec_cancelled() == cancelled,
            t.spec_shutdown() == shutdown,
    {
        CancellationToken { cancelled, shutdown }
    }

    /// Whether this generation was superseded or shutdown began. The flags
    /// are set by other threads, so nothing is claimed of the answer.
    pub fn is_cancelled(&self) -> bool {
        self.cancelled.load(Ordering::Acquire) || self.shutdown.load(Ordering::Acquire)
    }

    /// A cheap checkpoint between bounded units of work.
    pub fn checkpoint<E>(&self) -> (r: Result<(), TaskError<E>>)
        ensures
            r matches Err(e) ==> e is Cancelled,
    {
        if self.is_cancelled() {
            Err(TaskError::Cancelled)
        } else {
            Ok(())
        }
    }
}

/// Typed outcome from a worker task.
#[derive(Clone, Debug, PartialEq, Eq)]
pub enum TaskError<E> {
    /// The generation was superseded or shutdown began.
    Cancelled,
    /// The operation, such as image decoding, rejected its input.
    Decode(E),
    /// Task code panicked; the worker caught the unwind.
    Panicked,
}

/// Immediate rejection from the nonblocking submission path.
#[derive(Clone, Copy, Debug, PartialEq, Eq, Structural)]
pub enum SubmitError {
    /// The request queue is full.
    QueueFull,
    /// Accepting the input would exceed the aggregate byte budget.
    ByteBudgetExceeded { in_flight: usize, requested: usize, limit: usize },
    /// The request belongs to a generation that is no longer current.
    StaleGeneration,
    /// Shutdown has started and no more work is accepted.
    ShutDown,
}

/// The text of each rejection.
pub open spec fn submit_error_text(e: SubmitError) -> Seq<char> {
    match e {
        SubmitError::QueueFull => "worker request queue is full (capacity 8)"@,
        SubmitError::ByteBudgetExceeded { in_flight, requested, limit } => "worker byte budget exceeded: "@
            + spec_decimal(in_flight as nat) + " bytes in flight plus "@ + spec_decimal(requested as nat)
            + " bytes exceeds "@ + spec_decimal(limit as nat),
        SubmitError::StaleGeneration => "worker request belongs to a stale generation"@,
        SubmitError::ShutDown => "worker coordinator is shut down"@,
    }
}

impl SubmitError {
    /// The text of this rejection.
    pub fn message(&self) -> (m: String)
        ensures
            m@ == submit_error_text(*self),
    {
        let mut m = String::new();
        match *self {
            SubmitError::QueueFull => push_str(&mut m, "worker request queue is full (capacity 8)"),
            SubmitError::ByteBudgetExceeded { in_flight, requested, limit } => {
                push_str(&mut m, "worker byte budget exceeded: ");
                push_decimal(&mut m, in_flight as u64);
                push_str(&mut m, " bytes in flight plus ");
                push_decimal(&mut m, requested as u64);
                push_str(&mut m, " bytes exceeds ");
                push_decimal(&mut m, limit as u64);
            },
            SubmitError::StaleGeneration => push_str(&mut m, "worker request belongs to a stale generation"),
            SubmitError::ShutDown => push_str(&mut m, "worker coordinator is shut down"),
        }
        m
    }
}

/// Completion-channel state.
#[derive(Clone, Copy, Debug, PartialEq, Eq, Structural)]
pub enum ReceiveError {
    /// The coordinator has shut down and no completion remains.
    Disconnected,
}

impl ReceiveError {
    /// The text of this state.
    pub fn message(&self) -> (m: &'static str)
        ensures
            m@ == "worker coordinator disconnected"@,
    {
        "worker coordinator disconnected"
    }
}

/// One current-generation task completion.
#[derive(Debug)]
pub struct Completion<O, E> {
    /// Generation that owned the task.
    pub generation: Generation,
    /// Successful output or typed task failure.
    pub result: Result<O, TaskError<E>>,
}

/// Exact coordinator counters and instantaneous resource usage.
#[derive(Clone, Copy, Debug, PartialEq, Eq, Structural)]
pub struct WorkerStats {
    /// Requests accepted since construction.
    pub accepted: u64,
    /// Requests rejected since construction.
    pub rejected: u64,
    /// Accepted requests that reached a terminal state.
    pub completed: u64,
    /// Completed requests cancelled before publishing a result.
    pub cancelled: u64,
    /// Published or dropped task panics.
    pub panicked: u64,
    /// Published or dropped typed decode failures.
    pub decode_errors: u64,
    /// Completions discarded due to capacity, budget, or staleness.
    pub dropped_completions: u64,
    /// Successful completions discarded because their output would exceed
    /// the budget.
    pub oversized_completions: u64,
    /// Total bytes charged to request inputs and queued successful outputs.
    pub in_flight_bytes: usize,
    /// Bytes charged to queued and running request inputs.
    pub input_bytes: usize,
    /// Bytes charged to successful outputs waiting in the completion queue.
    pub completion_bytes: usize,
    /// Requests waiting for a worker.
    pub queued: usize,
    /// Results waiting for the owner to receive them.
    pub pending_completions: usize,
    /// Worker threads that have not exited.
    pub live_workers: usize,
}

/// Statistics before any work.
pub open spec fn no_stats() -> WorkerStats {
    WorkerStats {
        accepted: 0,
        rejected: 0,
        completed: 0,
        cancelled: 0,
        panicked: 0,
        decode_errors: 0,
        dropped_completions: 0,
        oversized_completions: 0,
        in_flight_bytes: 0,
        input_bytes: 0,
        completion_bytes: 0,
        queued: 0,
        pending_completions: 0,
        live_workers: 0,
    }
}

impl Default for WorkerStats {
    fn default() -> (s: Self)
        ensures
            s == no_stats(),
    {
        WorkerStats {
            accepted: 0,
            rejected: 0,
            completed: 0,
            cancelled: 0,
            panicked: 0,
            decode_errors: 0,
            dropped_completions: 0,
            oversized_completions: 0,
            in_flight_bytes: 0,
            input_bytes: 0,
            completion_bytes: 0,
            queued: 0,
            pending_completions: 0,
            live_workers: 0,
        }
    }
}

/// The admission decision for one submission, in order: a stale
/// generation, shutdown, a full queue, then the inclusive byte budget;
/// an accepted request leaves the new in-flight total.
pub open spec fn spec_admission(
    current: Generation,
    requested: Generation,
    shutdown: bool,
    queued: usize,
    in_flight: usize,
    bytes: usize,
) -> Result<usize, SubmitError> {
    if requested != current {
        Err(SubmitError::StaleGeneration)
    } else if shutdown {
        Err(SubmitError::ShutDown)
    } else if queued == QUEUE_CAPACITY {
        Err(SubmitError::QueueFull)
    } else if in_flight + bytes > MAX_IN_FLIGHT_BYTES {
        Err(SubmitError::ByteBudgetExceeded { in_flight, requested: bytes, limit: MAX_IN_FLIGHT_BYTES })
    } else {
        Ok((in_flight + bytes) as usize)
    }
}

/// Decides whether a submission is accepted.
pub fn admission(
    current: Generation,
    requested: Generation,
    shutdown: bool,
    queued: usize,
    in_flight: usize,
    bytes: usize,
) -> (r: Result<usize, SubmitError>)
    ensures
        r == spec_admission(current, requested, shutdown, queued, in_flight, bytes),
{
    if requested != current {
        return Err(SubmitError::StaleGeneration);
    }
    if shutdown {
        return Err(SubmitError::ShutDown);
    }
    if queued == QUEUE_CAPACITY {
        return Err(SubmitError::QueueFull);
    }
    match in_flight.checked_add(bytes) {
        Some(total) => if total > MAX_IN_FLIGHT_BYTES {
            Err(SubmitError::ByteBudgetExceeded { in_flight, requested: bytes, limit: MAX_IN_FLIGHT_BYTES })
        } else {
            Ok(total)
        },
        None => Err(SubmitError::ByteBudgetExceeded { in_flight, requested: bytes, limit: MAX_IN_FLIGHT_BYTES }),
    }
}

/// An accepted request never lets the in-flight bytes pass the budget.
pub proof fn lemma_admission_respects_budget(
    current: Generation,
    requested: Generation,
    shutdown: bool,
    queued: usize,
    in_flight: usize,
    bytes: usize,
)
    ensures
        spec_admission(current, requested, shutdown, queued, in_flight, bytes) matches Ok(total) ==> total
            <= MAX_IN_FLIGHT_BYTES && total == in_flight + bytes && requested == current && !shutdown
            && queued != QUEUE_CAPACITY,
{
}


/// How a taken request ended, as far as the counters tell apart.
#[derive(Clone, Copy, Debug, PartialEq, Eq, Structural)]
pub enum TaskOutcome {
    /// The generation was superseded or shutdown began, before or during
    /// the work.
    Cancelled,
    /// The work panicked.
    Panicked,
    /// The work rejected its input.
    DecodeFailed,
    /// The work produced an output.
    Succeeded,
}

/// The coordinator's bookkeeping, apart from the threads that run the work:
/// the current generation, whether shutdown began, the queued requests and
/// the waiting completions (each by its generation and charged bytes), how
/// many requests a worker took and has not finished, and the counters.
pub struct WorkLedger {
    pub current: Generation,
    pub shutdown: bool,
    pub requests: Vec<(Generation, usize)>,
    pub completions: Vec<(Generation, usize)>,
    pub running: usize,
    pub stats: WorkerStats,
}

/// The counters after one request ends cancelled, its input released.
pub open spec fn cancel_job(st: WorkerStats, bytes: usize) -> WorkerStats {
    WorkerStats {
        completed: st.completed.saturating_add(1),
        cancelled: st.cancelled.saturating_add(1),
        in_flight_bytes: st.in_flight_bytes.saturating_sub(bytes),
        input_bytes: st.input_bytes.saturating_sub(bytes),
        ..st
    }
}

/// The counters after one waiting completion's output is released.
pub open spec fn release_output(st: WorkerStats, bytes: usize) -> WorkerStats {
    WorkerStats {
        in_flight_bytes: st.in_flight_bytes.saturating_sub(bytes),
        completion_bytes: st.completion_bytes.saturating_sub(bytes),
        ..st
    }
}

/// The requests of generation `keep`, in order, and the counters after
/// every other request ends cancelled.
pub open spec fn cancel_stale(st: WorkerStats, reqs: Seq<(Generation, usize)>, keep: Generation) -> (
    Seq<(Generation, usize)>,
    WorkerStats,
)
    decreases reqs.len(),
{
    if reqs.len() == 0 {
        (Seq::empty(), st)
    } else {
        let (kept, s) = cancel_stale(st, reqs.drop_last(), keep);
        let r = reqs.last();
        if r.0 == keep {
            (kept.push(r), s)
        } else {
            (kept, cancel_job(s, r.1))
        }
    }
}

/// The counters after every completion of `comps` is released.
pub open spec fn release_all(st: WorkerStats, comps: Seq<(Generation, usize)>) -> WorkerStats
    decreases comps.len(),
{
    if comps.len() == 0 {
        st
    } else {
        release_output(release_all(st, comps.drop_last()), comps.last().1)
    }
}

/// The counters after every request of `reqs` ends cancelled.
pub open spec fn cancel_every(st: WorkerStats, reqs: Seq<(Generation, usize)>) -> WorkerStats
    decreases reqs.len(),
{
    if reqs.len() == 0 {
        st
    } else {
        cancel_job(cancel_every(st, reqs.drop_last()), reqs.last().1)
    }
}

/// Receiving from the completions `comps`: each is removed and released in
/// turn; the first of generation `current` is delivered, the others before
/// it are dropped. Gives the delivered one, the completions left and the
/// counters.
pub open spec fn recv_scan(st: WorkerStats, comps: Seq<(Generation, usize)>, current: Generation) -> (
    Option<(Generation, usize)>,
    Seq<(Generation, usize)>,
    WorkerStats,
)
    decreases comps.len(),
{
    if comps.len() == 0 {
        (None, comps, st)
    } else {
        let c = comps[0];
        let released = WorkerStats {
            pending_completions: (comps.len() - 1) as usize,
            ..release_output(st, c.1)
        };
        if c.0 == current {
            (Some(c), comps.drop_first(), released)
        } else {
            recv_scan(
                WorkerStats { dropped_completions: released.dropped_completions.saturating_add(1), ..released },
                comps.drop_first(),
                current,
            )
        }
    }
}

/// The bytes charged to the entries of `s`.
pub open spec fn charged(s: Seq<(Generation, usize)>) -> nat
    decreases s.len(),
{
    if s.len() == 0 {
        0
    } else {
        charged(s.drop_last()) + s.last().1 as nat
    }
}

proof fn lemma_charged_first(s: Seq<(Generation, usize)>)
    requires
        s.len() > 0,
    ensures
        charged(s) == s[0].1 + charged(s.drop_first()),
    decreases s.len(),
{
    if s.len() > 1 {
        lemma_charged_first(s.drop_last());
        assert(s.drop_last().drop_first() =~= s.drop_first().drop_last());
    } else {
        assert(s.drop_first() =~= Seq::<(Generation, usize)>::empty());
        assert(s.drop_last() =~= Seq::<(Generation, usize)>::empty());
    }
}

/// The accounting of a ledger: the counts match the queues and stay within
/// capacity, the in-flight bytes are the input bytes plus the completion
/// bytes and stay within the budget, the completion bytes are what the
/// waiting completions hold, the queued requests are covered by the input
/// bytes, no more requests ended cancelled than completed, and (unless the
/// accepted count is pinned at its maximum) the completed, queued and
/// running requests together are at most the accepted ones.
pub open spec fn ledger_wf(l: WorkLedger) -> bool {
    &&& l.stats.queued == l.requests@.len() && l.requests@.len() <= QUEUE_CAPACITY
    &&& l.stats.pending_completions == l.completions@.len() && l.completions@.len() <= QUEUE_CAPACITY
    &&& l.stats.in_flight_bytes == l.stats.input_bytes + l.stats.completion_bytes
    &&& l.stats.in_flight_bytes <= MAX_IN_FLIGHT_BYTES
    &&& l.stats.completion_bytes == charged(l.completions@)
    &&& charged(l.requests@) <= l.stats.input_bytes
    &&& l.stats.cancelled <= l.stats.completed
    &&& l.stats.accepted == u64::MAX || l.stats.completed + l.requests@.len() + l.running <= l.stats.accepted
}

/// Byte and count facts kept by cancelling requests.
pub open spec fn balanced(st: WorkerStats) -> bool {
    &&& st.in_flight_bytes == st.input_bytes + st.completion_bytes
    &&& st.cancelled <= st.completed
}

proof fn lemma_cancel_stale(st: WorkerStats, reqs: Seq<(Generation, usize)>, keep: Generation)
    requires
        balanced(st),
        charged(reqs) <= st.input_bytes,
    ensures
        ({
            let (kept, s) = cancel_stale(st, reqs, keep);
            &&& balanced(s)
            &&& s.input_bytes + charged(reqs) == st.input_bytes + charged(kept)
            &&& s.completion_bytes == st.completion_bytes
            &&& kept.len() <= reqs.len()
            &&& s.in_flight_bytes <= st.in_flight_bytes
            &&& s.accepted == st.accepted
            &&& st.completed + reqs.len() <= u64::MAX ==> s.completed + kept.len() == st.completed + reqs.len()
        }),
    decreases reqs.len(),
{
    if reqs.len() > 0 {
        lemma_cancel_stale(st, reqs.drop_last(), keep);
        let (kept0, s0) = cancel_stale(st, reqs.drop_last(), keep);
        let r = reqs.last();
        if r.0 == keep {
            assert(kept0.push(r).drop_last() =~= kept0);
        }
    }
}

proof fn lemma_cancel_every(st: WorkerStats, reqs: Seq<(Generation, usize)>)
    requires
        balanced(st),
        charged(reqs) <= st.input_bytes,
    ensures
        balanced(cancel_every(st, reqs)),
        cancel_every(st, reqs).input_bytes + charged(reqs) == st.input_bytes,
        cancel_every(st, reqs).completion_bytes == st.completion_bytes,
        cancel_every(st, reqs).in_flight_bytes <= st.in_flight_bytes,
        cancel_every(st, reqs).accepted == st.accepted,
        st.completed + reqs.len() <= u64::MAX ==> cancel_every(st, reqs).completed == st.completed + reqs.len(),
    decreases reqs.len(),
{
    if reqs.len() > 0 {
        lemma_cancel_every(st, reqs.drop_last());
    }
}

proof fn lemma_release_all(st: WorkerStats, comps: Seq<(Generation, usize)>)
    requires
        balanced(st),
        charged(comps) <= st.completion_bytes,
    ensures
        balanced(release_all(st, comps)),
        release_all(st, comps).completion_bytes + charged(comps) == st.completion_bytes,
        release_all(st, comps).input_bytes == st.input_bytes,
        release_all(st, comps).completed == st.completed,
        release_all(st, comps).cancelled == st.cancelled,
        release_all(st, comps).accepted == st.accepted,
        release_all(st, comps).in_flight_bytes <= st.in_flight_bytes,
    decreases comps.len(),
{
    if comps.len() > 0 {
        lemma_release_all(st, comps.drop_last());
    }
}

proof fn lemma_recv_scan(st: WorkerStats, comps: Seq<(Generation, usize)>, current: Generation)
    requires
        balanced(st),
        st.completion_bytes == charged(comps),
        st.pending_completions == comps.len(),
    ensures
        ({
            let (got, rest, s) = recv_scan(st, comps, current);
            &&& balanced(s)
            &&& s.completion_bytes == charged(rest)
            &&& s.pending_completions == rest.len()
            &&& rest.len() <= comps.len()
            &&& s.input_bytes == st.input_bytes
            &&& s.queued == st.queued
            &&& s.in_flight_bytes <= st.in_flight_bytes
            &&& s.cancelled == st.cancelled && s.completed == st.completed
            &&& s.accepted == st.accepted
        }),
    decreases comps.len(),
{
    if comps.len() > 0 {
        lemma_charged_first(comps);
        let c = comps[0];
        let released = WorkerStats {
            pending_completions: (comps.len() - 1) as usize,
            ..release_output(st, c.1)
        };
        if c.0 != current {
            lemma_recv_scan(
                WorkerStats { dropped_completions: released.dropped_completions.saturating_add(1), ..released },
                comps.drop_first(),
                current,
            );
        }
    }
}

/// The accounting bounds of the coordinator: a fresh ledger satisfies
/// `ledger_wf` and every operation keeps it (each method states so), so in
/// every reachable ledger the queues stay within capacity, the in-flight
/// bytes are the input plus the completion bytes and stay within the
/// budget, no more requests were cancelled than completed, no more
/// completed than were accepted, and with no completion waiting the
/// in-flight bytes are the input bytes alone.
pub proof fn lemma_ledger_bounds(l: WorkLedger)
    requires
        ledger_wf(l),
    ensures
        l.stats.queued <= QUEUE_CAPACITY,
        l.stats.pending_completions <= QUEUE_CAPACITY,
        l.stats.in_flight_bytes == l.stats.input_bytes + l.stats.completion_bytes,
        l.stats.in_flight_bytes <= MAX_IN_FLIGHT_BYTES,
        l.stats.cancelled <= l.stats.completed,
        l.stats.completed <= l.stats.accepted,
        l.completions@.len() == 0 ==> l.stats.in_flight_bytes == l.stats.input_bytes,
{
}

impl WorkLedger {
    /// An idle ledger at `generation`.
    pub fn new(generation: Generation) -> (l: WorkLedger)
        ensures
            l.current == generation,
            !l.shutdown,
            l.requests@.len() == 0,
            l.completions@.len() == 0,
            l.running == 0,
            l.stats == no_stats(),
            ledger_wf(l),
    {
        WorkLedger {
            current: generation,
            shutdown: false,
            requests: Vec::new(),
            completions: Vec::new(),
            running: 0,
            stats: WorkerStats::default(),
        }
    }

    /// A consistent accounting snapshot.
    pub fn stats(&self) -> (s: WorkerStats)
        ensures
            s == self.stats,
    {
        self.stats
    }

    /// Attempts to enqueue work of `bytes` input bytes for `generation`
    /// without waiting: the admission decides; a rejection counts as
    /// rejected, an acceptance queues the request and charges its bytes.
    pub fn try_submit(&mut self, generation: Generation, bytes: usize) -> (r: Result<(), SubmitError>)
        ensures
            ledger_wf(*old(self)) ==> ledger_wf(*final(self)),
            old(self).stats.in_flight_bytes <= MAX_IN_FLIGHT_BYTES ==> final(self).stats.in_flight_bytes
                <= MAX_IN_FLIGHT_BYTES,
            old(self).requests@.len() <= QUEUE_CAPACITY ==> final(self).requests@.len() <= QUEUE_CAPACITY,
            final(self).current == old(self).current,
            final(self).shutdown == old(self).shutdown,
            final(self).completions@ == old(self).completions@,
            final(self).running == old(self).running,
            match spec_admission(
                old(self).current,
                generation,
                old(self).shutdown,
                old(self).requests@.len() as usize,
                old(self).stats.in_flight_bytes,
                bytes,
            ) {
                Ok(total) => {
                    &&& r is Ok
                    &&& final(self).requests@ == old(self).requests@.push((generation, bytes))
                    &&& final(self).stats == WorkerStats {
                        accepted: old(self).stats.accepted.saturating_add(1),
                        in_flight_bytes: total,
                        input_bytes: old(self).stats.input_bytes.saturating_add(bytes),
                        queued: final(self).requests@.len() as usize,
                        ..old(self).stats
                    }
                },
                Err(e) => {
                    &&& r == Err::<(), SubmitError>(e)
                    &&& final(self).requests@ == old(self).requests@
                    &&& final(self).stats == WorkerStats {
                        rejected: old(self).stats.rejected.saturating_add(1),
                        ..old(self).stats
                    }
                },
            },
    {
        match admission(
            self.current,
            generation,
            self.shutdown,
            self.requests.len(),
            self.stats.in_flight_bytes,
            bytes,
        ) {
            Err(e) => {
                self.stats.rejected = self.stats.rejected.saturating_add(1);
                Err(e)
            },
            Ok(total) => {
                proof {
                    assert(self.requests@.push((generation, bytes)).drop_last() =~= self.requests@);
                }
                self.requests.push((generation, bytes));
                self.stats.accepted = self.stats.accepted.saturating_add(1);
                self.stats.in_flight_bytes = total;
                self.stats.input_bytes = self.stats.input_bytes.saturating_add(bytes);
                self.stats.queued = self.requests.len();
                Ok(())
            },
        }
    }

    /// Cancels all older work and advances to the next generation: queued
    /// requests of another generation end cancelled, every waiting
    /// completion is dropped and its output released.
    pub fn next_generation(&mut self) -> (r: Result<Generation, GenerationExhausted>)
        ensures
            ledger_wf(*old(self)) ==> ledger_wf(*final(self)),
            match spec_next(old(self).current) {
                None => r is Err && *final(self) == *old(self),
                Some((e, q)) => {
                    let (kept, st1) = cancel_stale(old(self).stats, old(self).requests@, final(self).current);
                    let st2 = release_all(st1, old(self).completions@);
                    &&& r == Ok::<Generation, GenerationExhausted>(final(self).current)
                    &&& final(self).current.spec_epoch() == e
                    &&& final(self).current.spec_sequence() == q
                    &&& final(self).shutdown == old(self).shutdown
                    &&& final(self).running == old(self).running
                    &&& final(self).requests@ == kept
                    &&& final(self).completions@.len() == 0
                    &&& final(self).stats == WorkerStats {
                        dropped_completions: st2.dropped_completions.saturating_add(
                            old(self).completions@.len() as u64,
                        ),
                        queued: kept.len() as usize,
                        pending_completions: 0,
                        ..st2
                    }
                },
            },
    {
        let next = match self.current.next() {
            Some(n) => n,
            None => {
                return Err(GenerationExhausted);
            },
        };
        let ghost old_requests = self.requests@;
        let ghost old_completions = self.completions@;
        let ghost st0 = self.stats;
        let mut kept: Vec<(Generation, usize)> = Vec::new();
        let mut i: usize = 0;
        while i < self.requests.len()
            invariant
                i <= self.requests@.len(),
                self.requests@ == old_requests,
                self.completions@ == old_completions,
                self.current == old(self).current,
                self.running == old(self).running,
                self.shutdown == old(self).shutdown,
                (kept@, self.stats) == cancel_stale(st0, old_requests.take(i as int), next),
            decreases self.requests@.len() - i,
        {
            assert(old_requests.take(i + 1).drop_last() =~= old_requests.take(i as int));
            let job = self.requests[i];
            if job.0 == next {
                kept.push(job);
            } else {
                self.stats.completed = self.stats.completed.saturating_add(1);
                self.stats.cancelled = self.stats.cancelled.saturating_add(1);
                self.stats.in_flight_bytes = self.stats.in_flight_bytes.saturating_sub(job.1);
                self.stats.input_bytes = self.stats.input_bytes.saturating_sub(job.1);
            }
            i = i + 1;
        }
        assert(old_requests.take(i as int) =~= old_requests);
        let ghost st1 = self.stats;
        let mut j: usize = 0;
        while j < self.completions.len()
            invariant
                j <= self.completions@.len(),
                self.completions@ == old_completions,
                self.current == old(self).current,
                self.running == old(self).running,
                self.shutdown == old(self).shutdown,
                kept@ == cancel_stale(st0, old_requests, next).0,
                st1 == cancel_stale(st0, old_requests, next).1,
                self.stats == release_all(st1, old_completions.take(j as int)),
            decreases self.completions@.len() - j,
        {
            assert(old_completions.take(j + 1).drop_last() =~= old_completions.take(j as int));
            let out = self.completions[j].1;
            self.stats.in_flight_bytes = self.stats.in_flight_bytes.saturating_sub(out);
            self.stats.completion_bytes = self.stats.completion_bytes.saturating_sub(out);
            j = j + 1;
        }
        assert(old_completions.take(j as int) =~= old_completions);
        proof {
            if ledger_wf(*old(self)) {
                lemma_cancel_stale(st0, old_requests, next);
                lemma_release_all(st1, old_completions);
                assert(Seq::<(Generation, usize)>::empty().len() == 0);
            }
        }
        let stale = self.completions.len() as u64;
        self.completions = Vec::new();
        self.stats.dropped_completions = self.stats.dropped_completions.saturating_add(stale);
        self.current = next;
        self.requests = kept;
        self.stats.queued = self.requests.len();
        self.stats.pending_completions = 0;
        Ok(next)
    }

    /// Hands the oldest queued request to a worker: nothing once shutdown
    /// began or while the queue is empty.
    pub fn take_job(&mut self) -> (job: Option<(Generation, usize)>)
        ensures
            ledger_wf(*old(self)) ==> ledger_wf(*final(self)),
            final(self).current == old(self).current,
            final(self).shutdown == old(self).shutdown,
            final(self).completions@ == old(self).completions@,
            if old(self).shutdown || old(self).requests@.len() == 0 {
                &&& job is None
                &&& final(self).requests@ == old(self).requests@
                &&& final(self).stats == old(self).stats
                &&& final(self).running == old(self).running
            } else {
                &&& job == Some(old(self).requests@[0])
                &&& final(self).running == old(self).running.saturating_add(1)
                &&& final(self).requests@ == old(self).requests@.drop_first()
                &&& final(self).stats == WorkerStats {
                    queued: final(self).requests@.len() as usize,
                    ..old(self).stats
                }
            },
    {
        if self.shutdown || self.requests.len() == 0 {
            return None;
        }
        proof {
            lemma_charged_first(self.requests@);
        }
        let job = self.requests.remove(0);
        assert(self.requests@ =~= old(self).requests@.drop_first());
        self.stats.queued = self.requests.len();
        self.running = self.running.saturating_add(1);
        Some(job)
    }

    /// Records how a taken request ended: it always counts as completed and
    /// releases its input; a cancelled one counts as cancelled and publishes
    /// nothing; a failure counts by its kind; a result is then published
    /// unless the completion queue is full or its output would pass the
    /// byte budget, which drop it. Returns whether it was published.
    pub fn finish_job(&mut self, generation: Generation, bytes: usize, outcome: TaskOutcome, output_bytes: usize) -> (published: bool)
        ensures
            ledger_wf(*old(self)) && bytes + charged(old(self).requests@) <= old(self).stats.input_bytes
                && old(self).running > 0 ==> ledger_wf(*final(self)),
            final(self).running == old(self).running.saturating_sub(1),
            old(self).stats.in_flight_bytes <= MAX_IN_FLIGHT_BYTES ==> final(self).stats.in_flight_bytes
                <= MAX_IN_FLIGHT_BYTES,
            old(self).completions@.len() <= QUEUE_CAPACITY ==> final(self).completions@.len() <= QUEUE_CAPACITY,
            final(self).current == old(self).current,
            final(self).shutdown == old(self).shutdown,
            final(self).requests@ == old(self).requests@,
            ({
                let st = WorkerStats {
                    completed: old(self).stats.completed.saturating_add(1),
                    in_flight_bytes: old(self).stats.in_flight_bytes.saturating_sub(bytes),
                    input_bytes: old(self).stats.input_bytes.saturating_sub(bytes),
                    ..old(self).stats
                };
                let st2 = match outcome {
                    TaskOutcome::Panicked => WorkerStats { panicked: st.panicked.saturating_add(1), ..st },
                    TaskOutcome::DecodeFailed => WorkerStats { decode_errors: st.decode_errors.saturating_add(1), ..st },
                    _ => st,
                };
                if outcome == TaskOutcome::Cancelled {
                    &&& !published
                    &&& final(self).completions@ == old(self).completions@
                    &&& final(self).stats == WorkerStats { cancelled: st.cancelled.saturating_add(1), ..st }
                } else if old(self).completions@.len() == QUEUE_CAPACITY {
                    &&& !published
                    &&& final(self).completions@ == old(self).completions@
                    &&& final(self).stats == WorkerStats {
                        dropped_completions: st2.dropped_completions.saturating_add(1),
                        ..st2
                    }
                } else if output_bytes > MAX_IN_FLIGHT_BYTES || st2.in_flight_bytes + output_bytes > MAX_IN_FLIGHT_BYTES {
                    &&& !published
                    &&& final(self).completions@ == old(self).completions@
                    &&& final(self).stats == WorkerStats {
                        dropped_completions: st2.dropped_completions.saturating_add(1),
                        oversized_completions: st2.oversized_completions.saturating_add(1),
                        ..st2
                    }
                } else {
                    &&& published
                    &&& final(self).completions@ == old(self).completions@.push((generation, output_bytes))
                    &&& final(self).stats == WorkerStats {
                        in_flight_bytes: (st2.in_flight_bytes + output_bytes) as usize,
                        completion_bytes: st2.completion_bytes.saturating_add(output_bytes),
                        pending_completions: final(self).completions@.len() as usize,
                        ..st2
                    }
                }
            }),
    {
        self.running = self.running.saturating_sub(1);
        self.stats.completed = self.stats.completed.saturating_add(1);
        self.stats.in_flight_bytes = self.stats.in_flight_bytes.saturating_sub(bytes);
        self.stats.input_bytes = self.stats.input_bytes.saturating_sub(bytes);
        match outcome {
            TaskOutcome::Cancelled => {
                self.stats.cancelled = self.stats.cancelled.saturating_add(1);
                return false;
            },
            TaskOutcome::Panicked => {
                self.stats.panicked = self.stats.panicked.saturating_add(1);
            },
            TaskOutcome::DecodeFailed => {
                self.stats.decode_errors = self.stats.decode_errors.saturating_add(1);
            },
            TaskOutcome::Succeeded => {},
        }
        if self.completions.len() == QUEUE_CAPACITY {
            self.stats.dropped_completions = self.stats.dropped_completions.saturating_add(1);
            return false;
        }
        if output_bytes > MAX_IN_FLIGHT_BYTES || self.stats.in_flight_bytes > MAX_IN_FLIGHT_BYTES - output_bytes {
            self.stats.dropped_completions = self.stats.dropped_completions.saturating_add(1);
            self.stats.oversized_completions = self.stats.oversized_completions.saturating_add(1);
            return false;
        }
        proof {
            assert(self.completions@.push((generation, output_bytes)).drop_last() =~= self.completions@);
        }
        self.completions.push((generation, output_bytes));
        self.stats.in_flight_bytes = self.stats.in_flight_bytes + output_bytes;
        self.stats.completion_bytes = self.stats.completion_bytes.saturating_add(output_bytes);
        self.stats.pending_completions = self.completions.len();
        true
    }

    /// Removes one completion of the current generation, dropping older
    /// ones before it; once shutdown began and nothing is left, reports the
    /// coordinator disconnected.
    pub fn try_recv(&mut self) -> (r: Result<Option<(Generation, usize)>, ReceiveError>)
        ensures
            ledger_wf(*old(self)) ==> ledger_wf(*final(self)),
            final(self).current == old(self).current,
            final(self).shutdown == old(self).shutdown,
            final(self).requests@ == old(self).requests@,
            final(self).running == old(self).running,
            ({
                let (got, rest, st) = recv_scan(old(self).stats, old(self).completions@, old(self).current);
                &&& final(self).completions@ == rest
                &&& final(self).stats == st
                &&& r == match got {
                    Some(c) => Ok::<Option<(Generation, usize)>, ReceiveError>(Some(c)),
                    None => if old(self).shutdown {
                        Err(ReceiveError::Disconnected)
                    } else {
                        Ok(None)
                    },
                }
            }),
    {
        let ghost target = recv_scan(self.stats, self.completions@, self.current);
        proof {
            if ledger_wf(*old(self)) {
                lemma_recv_scan(self.stats, self.completions@, self.current);
            }
        }
        while self.completions.len() > 0
            invariant
                self.current == old(self).current,
                self.running == old(self).running,
                self.shutdown == old(self).shutdown,
                self.requests@ == old(self).requests@,
                target == recv_scan(old(self).stats, old(self).completions@, old(self).current),
                target == recv_scan(self.stats, self.completions@, self.current),
            decreases self.completions@.len(),
        {
            let ghost before = self.completions@;
            let c = self.completions.remove(0);
            assert(self.completions@ =~= before.drop_first());
            self.stats.in_flight_bytes = self.stats.in_flight_bytes.saturating_sub(c.1);
            self.stats.completion_bytes = self.stats.completion_bytes.saturating_sub(c.1);
            self.stats.pending_completions = self.completions.len();
            if c.0 == self.current {
                proof {
                    if ledger_wf(*old(self)) {
                        lemma_recv_scan(old(self).stats, old(self).completions@, old(self).current);
                    }
                }
                return Ok(Some(c));
            }
            self.stats.dropped_completions = self.stats.dropped_completions.saturating_add(1);
        }
        if self.shutdown {
            Err(ReceiveError::Disconnected)
        } else {
            Ok(None)
        }
    }

    /// Begins shutdown: every queued request ends cancelled and every
    /// waiting completion is dropped. Repeating it changes nothing more.
    pub fn request_shutdown(&mut self)
        ensures
            ledger_wf(*old(self)) ==> ledger_wf(*final(self)),
            final(self).current == old(self).current,
            final(self).shutdown,
            final(self).requests@.len() == 0,
            final(self).completions@.len() == 0,
            final(self).running == old(self).running,
            final(self).stats == (WorkerStats {
                dropped_completions: release_all(
                    cancel_every(old(self).stats, old(self).requests@),
                    old(self).completions@,
                ).dropped_completions.saturating_add(old(self).completions@.len() as u64),
                queued: 0,
                pending_completions: 0,
                ..release_all(cancel_every(old(self).stats, old(self).requests@), old(self).completions@)
            }),
    {
        self.shutdown = true;
        let ghost reqs = self.requests@;
        let ghost comps = self.completions@;
        let ghost st0 = self.stats;
        let mut i: usize = 0;
        while i < self.requests.len()
            invariant
                i <= self.requests@.len(),
                self.requests@ == reqs,
                self.completions@ == comps,
                self.current == old(self).current,
                self.running == old(self).running,
                self.shutdown,
                st0 == old(self).stats,
                reqs == old(self).requests@,
                comps == old(self).completions@,
                self.stats == cancel_every(st0, reqs.take(i as int)),
            decreases self.requests@.len() - i,
        {
            assert(reqs.take(i + 1).drop_last() =~= reqs.take(i as int));
            let b = self.requests[i].1;
            self.stats.completed = self.stats.completed.saturating_add(1);
            self.stats.cancelled = self.stats.cancelled.saturating_add(1);
            self.stats.in_flight_bytes = self.stats.in_flight_bytes.saturating_sub(b);
            self.stats.input_bytes = self.stats.input_bytes.saturating_sub(b);
            i = i + 1;
        }
        assert(reqs.take(i as int) =~= reqs);
        let ghost st1 = self.stats;
        let mut j: usize = 0;
        while j < self.completions.len()
            invariant
                j <= self.completions@.len(),
                self.completions@ == comps,
                self.current == old(self).current,
                self.running == old(self).running,
                self.shutdown,
                comps == old(self).completions@,
                st1 == cancel_every(old(self).stats, old(self).requests@),
                self.stats == release_all(st1, comps.take(j as int)),
            decreases self.completions@.len() - j,
        {
            assert(comps.take(j + 1).drop_last() =~= comps.take(j as int));
            let out = self.completions[j].1;
            self.stats.in_flight_bytes = self.stats.in_flight_bytes.saturating_sub(out);
            self.stats.completion_bytes = self.stats.completion_bytes.saturating_sub(out);
            j = j + 1;
        }
        assert(comps.take(j as int) =~= comps);
        proof {
            if ledger_wf(*old(self)) {
                lemma_cancel_every(old(self).stats, old(self).requests@);
                lemma_release_all(st1, comps);
            }
        }
        let dropped = self.completions.len() as u64;
        self.requests = Vec::new();
        self.completions = Vec::new();
        self.stats.dropped_completions = self.stats.dropped_completions.saturating_add(dropped);
        self.stats.queued = 0;
        self.stats.pending_completions = 0;
    }
}
} // verus!
