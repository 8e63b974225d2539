//! A fixed-size worker pool's dispatch core: a FIFO job queue shared by a fixed
//! set of workers, with the rules that decide which worker gets which job.
//!
//! The threads, the lock and the waiting live with the caller; every decision
//! they act on is made here and proved.

mod pool;
mod queue;

pub use pool::{
    is_live, lemma_busy_worker_takes_nothing, lemma_drained_pool_disconnects,
    lemma_each_job_once, lemma_live_count_zero, lemma_open_pool_keeps_every_worker,
    lemma_open_run_queues_every_submission, lemma_run_keeps_inv, lemma_run_prefix_taken_by,
    lemma_step_keeps_inv, lemma_waiting_worker_drains_queue, lemma_waiting_workers_run_together,
    live_count, run, runnable, serve_steps, submissions, takes_from, PoolState, PoolView, Step,
    WorkerState,
};
pub use queue::{Disconnected, JobQueue, QueueView, Received};
