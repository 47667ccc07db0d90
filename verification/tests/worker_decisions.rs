use std::sync::atomic::AtomicBool;
use std::sync::Arc;

use termleaf::worker::{
    admission, CancellationToken, Generation, GenerationExhausted, ReceiveError, SubmitError, TaskError, TaskOutcome,
    WorkLedger, WorkerStats,
    MAX_IN_FLIGHT_BYTES, QUEUE_CAPACITY,
};

#[test]
fn generations_roll_over_into_the_next_epoch_and_exhaust_last() {
    assert_eq!(Generation::from_parts(0, 0).next(), Some(Generation::from_parts(0, 1)));
    assert_eq!(Generation::from_parts(3, u64::MAX).next(), Some(Generation::from_parts(4, 0)));
    assert_eq!(Generation::from_parts(u64::MAX, u64::MAX).next(), None);
    assert_eq!(Generation::default(), Generation::first());
    assert_eq!(GenerationExhausted.message(), "worker generation counter is exhausted");
}

#[test]
fn admission_checks_staleness_shutdown_capacity_then_budget() {
    let current = Generation::from_parts(0, 5);
    let stale = Generation::from_parts(0, 4);
    assert_eq!(admission(current, stale, true, QUEUE_CAPACITY, 0, 1), Err(SubmitError::StaleGeneration));
    assert_eq!(admission(current, current, true, 0, 0, 1), Err(SubmitError::ShutDown));
    assert_eq!(admission(current, current, false, QUEUE_CAPACITY, 0, 1), Err(SubmitError::QueueFull));
    assert_eq!(admission(current, current, false, 0, MAX_IN_FLIGHT_BYTES - 10, 10), Ok(MAX_IN_FLIGHT_BYTES));
    assert_eq!(
        admission(current, current, false, 0, MAX_IN_FLIGHT_BYTES - 10, 11),
        Err(SubmitError::ByteBudgetExceeded { in_flight: MAX_IN_FLIGHT_BYTES - 10, requested: 11, limit: MAX_IN_FLIGHT_BYTES })
    );
    assert_eq!(
        admission(current, current, false, 0, usize::MAX, 1),
        Err(SubmitError::ByteBudgetExceeded { in_flight: usize::MAX, requested: 1, limit: MAX_IN_FLIGHT_BYTES })
    );
}

#[test]
fn submit_and_receive_messages_name_the_limit() {
    assert_eq!(SubmitError::QueueFull.message(), "worker request queue is full (capacity 8)");
    assert_eq!(
        SubmitError::ByteBudgetExceeded { in_flight: 5, requested: 7, limit: 10 }.message(),
        "worker byte budget exceeded: 5 bytes in flight plus 7 bytes exceeds 10"
    );
    assert_eq!(SubmitError::StaleGeneration.message(), "worker request belongs to a stale generation");
    assert_eq!(SubmitError::ShutDown.message(), "worker coordinator is shut down");
    assert_eq!(ReceiveError::Disconnected.message(), "worker coordinator disconnected");
}

#[test]
fn checkpoints_report_cancellation_of_either_flag() {
    let generation = Arc::new(AtomicBool::new(false));
    let shutdown = Arc::new(AtomicBool::new(false));
    let token = CancellationToken::new(Arc::clone(&generation), Arc::clone(&shutdown));
    assert!(!token.is_cancelled());
    assert_eq!(token.checkpoint::<()>(), Ok(()));
    shutdown.store(true, std::sync::atomic::Ordering::SeqCst);
    assert!(token.is_cancelled());
    assert_eq!(token.checkpoint::<()>(), Err(TaskError::Cancelled));
    let other = CancellationToken::new(Arc::new(AtomicBool::new(true)), Arc::new(AtomicBool::new(false)));
    assert!(other.is_cancelled());
}

#[test]
fn statistics_start_at_zero() {
    let stats = WorkerStats::default();
    assert_eq!(stats.accepted, 0);
    assert_eq!(stats.in_flight_bytes, 0);
    assert_eq!(stats.live_workers, 0);
}

#[test]
fn ledger_admits_up_to_the_queue_capacity_and_byte_budget() {
    let start = Generation::first();
    let mut ledger = WorkLedger::new(start);
    for _ in 0..QUEUE_CAPACITY {
        assert_eq!(ledger.try_submit(start, 1), Ok(()));
    }
    assert_eq!(ledger.try_submit(start, 1), Err(SubmitError::QueueFull));
    assert_eq!(ledger.stats().accepted, QUEUE_CAPACITY as u64);
    assert_eq!(ledger.stats().rejected, 1);
    assert_eq!(ledger.stats().queued, QUEUE_CAPACITY);
    assert_eq!(ledger.stats().in_flight_bytes, QUEUE_CAPACITY);

    let mut fresh = WorkLedger::new(start);
    assert_eq!(fresh.try_submit(start, MAX_IN_FLIGHT_BYTES), Ok(()));
    assert_eq!(
        fresh.try_submit(start, 1),
        Err(SubmitError::ByteBudgetExceeded { in_flight: MAX_IN_FLIGHT_BYTES, requested: 1, limit: MAX_IN_FLIGHT_BYTES })
    );
    let stale = Generation::from_parts(9, 9);
    assert_eq!(fresh.try_submit(stale, 1), Err(SubmitError::StaleGeneration));
}

#[test]
fn ledger_generation_change_cancels_queued_work_and_drops_completions() {
    let start = Generation::first();
    let mut ledger = WorkLedger::new(start);
    assert_eq!(ledger.try_submit(start, 10), Ok(()));
    assert_eq!(ledger.try_submit(start, 20), Ok(()));
    let job = ledger.take_job().expect("queued work");
    assert_eq!(job, (start, 10));
    assert!(ledger.finish_job(job.0, job.1, TaskOutcome::Succeeded, 5));
    assert_eq!(ledger.stats().in_flight_bytes, 25);
    assert_eq!(ledger.stats().pending_completions, 1);

    let next = ledger.next_generation().expect("clock advances");
    assert_eq!(next, Generation::from_parts(0, 1));
    let stats = ledger.stats();
    assert_eq!(stats.cancelled, 1);
    assert_eq!(stats.completed, 2);
    assert_eq!(stats.dropped_completions, 1);
    assert_eq!(stats.in_flight_bytes, 0);
    assert_eq!(stats.queued, 0);
    assert_eq!(ledger.try_recv(), Ok(None));
}

#[test]
fn ledger_delivers_current_completions_and_disconnects_after_shutdown() {
    let start = Generation::first();
    let mut ledger = WorkLedger::new(start);
    assert_eq!(ledger.try_submit(start, 4), Ok(()));
    let job = ledger.take_job().expect("queued work");
    assert!(ledger.finish_job(job.0, job.1, TaskOutcome::Succeeded, 3));
    assert_eq!(ledger.try_recv(), Ok(Some((start, 3))));
    assert_eq!(ledger.stats().in_flight_bytes, 0);

    assert_eq!(ledger.try_submit(start, 4), Ok(()));
    let job = ledger.take_job().expect("queued work");
    assert!(!ledger.finish_job(job.0, job.1, TaskOutcome::Cancelled, 0));
    assert!(!ledger.finish_job(start, 0, TaskOutcome::Succeeded, MAX_IN_FLIGHT_BYTES + 1));
    assert_eq!(ledger.stats().oversized_completions, 1);

    assert_eq!(ledger.try_submit(start, 2), Ok(()));
    ledger.request_shutdown();
    assert_eq!(ledger.take_job(), None);
    assert_eq!(ledger.try_submit(start, 1), Err(SubmitError::ShutDown));
    assert_eq!(ledger.try_recv(), Err(ReceiveError::Disconnected));
    assert_eq!(ledger.stats().in_flight_bytes, 0);
}

#[test]
fn repeated_ledger_cycles_preserve_accounting_and_bounds() {
    let mut ledger = WorkLedger::new(Generation::first());
    for cycle in 0..5usize {
        let generation = ledger.current;
        for k in 0..10usize {
            let _ = ledger.try_submit(generation, 1000 + k + cycle);
        }
        if let Some(job) = ledger.take_job() {
            ledger.finish_job(job.0, job.1, TaskOutcome::Succeeded, 300);
        }
        if let Some(job) = ledger.take_job() {
            ledger.finish_job(job.0, job.1, TaskOutcome::Cancelled, 0);
        }
        let s = ledger.stats();
        assert!(s.queued <= 8);
        assert!(s.pending_completions <= 8);
        assert_eq!(s.in_flight_bytes, s.input_bytes + s.completion_bytes);
        assert!(s.cancelled <= s.completed && s.completed <= s.accepted);
        ledger.next_generation().expect("next generation");
        let s = ledger.stats();
        assert_eq!(s.pending_completions, 0);
        assert_eq!(s.completion_bytes, 0);
        assert_eq!(s.in_flight_bytes, s.input_bytes);
    }
    ledger.request_shutdown();
    let s = ledger.stats();
    assert_eq!((s.queued, s.pending_completions, s.in_flight_bytes), (0, 0, 0));
}

#[test]
fn taken_requests_count_as_running_until_finished_and_never_outnumber_the_accepted() {
    let start = Generation::first();
    let mut ledger = WorkLedger::new(start);
    assert_eq!(ledger.try_submit(start, 4), Ok(()));
    assert_eq!(ledger.try_submit(start, 4), Ok(()));
    let job = ledger.take_job().expect("queued work");
    assert_eq!(ledger.running, 1);
    assert!(ledger.finish_job(job.0, job.1, TaskOutcome::Succeeded, 1));
    assert_eq!(ledger.running, 0);
    ledger.request_shutdown();
    let stats = ledger.stats();
    assert_eq!((stats.accepted, stats.completed, stats.cancelled), (2, 2, 1));
    assert!(stats.completed <= stats.accepted);
}
