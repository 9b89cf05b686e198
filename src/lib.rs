//! A weight-bounded, multi-origin message queue.
//!
//! Messages are enqueued per origin in FIFO order, stored in pages, and later
//! drained under an explicit two-dimensional weight budget. Messages that need
//! more weight than a pass offers are set aside in an overweight store and can
//! be executed later through a dedicated entry point.

mod ingress;
mod laws;
mod page;
mod pause;
mod processor;
mod queue;
mod weight;

pub use ingress::EnqueueWithOrigin;
pub use page::messages_view;
pub use pause::{AnyPaused, NothingPaused, PausedOrigins, QueuePausedQuery};
pub use processor::{resolution_of, resolution_spec, ProcessMessage, ProcessMessageError, Resolution};
pub use queue::{
    bytes_of, capped, capped32, debit_proof_size, debit_ref_time, left_after, overweight_of, retried,
    ring_dist, ring_pos, ring_step, set_asides, settled, ExecuteOverweightError, Footprint,
    Handover, MessageQueue, OverweightEntry, OverweightSlot, QueueFootprint,
};
pub use weight::{sat_sub, Weight, WeightMeter};
pub use laws::{
    exhausted, lemma_budget_safe, lemma_handed_at_head, lemma_no_starvation,
    lemma_order_preserved, lemma_pause_respected, lemma_progress, lemma_resolved_once,
};
