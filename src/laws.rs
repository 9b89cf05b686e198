use vstd::prelude::*;

use crate::pause::QueuePausedQuery;
use crate::queue::{settled, ExecuteOverweightError, MessageQueue};
use crate::weight::{sat_sub, Weight};

verus! {

/// The weight left of `limit` once `used` is spent is zero in some dimension.
pub open spec fn exhausted(limit: Weight, used: Weight) -> bool {
    (Weight {
        ref_time: sat_sub(limit.ref_time, used.ref_time),
        proof_size: sat_sub(limit.proof_size, used.proof_size),
    }).has_zero()
}

/// Messages of an origin are resolved in the order they were enqueued.
///
/// After `m` is enqueued for `o` and a service pass runs, what the pass
/// resolved of `o` is the oldest part of its queue, what is left keeps its
/// order, and while anything is left `m` is still its last message.
pub proof fn lemma_order_preserved<Q: QueuePausedQuery>(
    q: MessageQueue,
    mid: MessageQueue,
    next: MessageQueue,
    pause: Q,
    limit: Weight,
    used: Weight,
    o: u32,
    m: Seq<u8>,
)
    requires
        mid.queue(o) == q.queue(o).push(m),
        mid.serviced(&next, &pause, limit, used),
    ensures
        next.queue(o).len() <= mid.queue(o).len(),
        mid.queue(o) == mid.queue(o).subrange(
            0,
            mid.queue(o).len() - next.queue(o).len(),
        ) + next.queue(o),
        next.queue(o).len() > 0 ==> next.queue(o).last() == m,
{
    let a = mid.queue(o);
    let b = next.queue(o);
    let log = next.dispatched().subrange(mid.dispatched().len() as int, next.dispatched().len() as int);
    let k = settled(log, o) as int;
    assert(b == a.subrange(k, a.len() as int));
    assert(a =~= a.subrange(0, a.len() - b.len()) + b);
}

/// A service pass never uses more weight than its limit, in any dimension.
pub proof fn lemma_budget_safe<Q: QueuePausedQuery>(
    q: MessageQueue,
    next: MessageQueue,
    pause: Q,
    limit: Weight,
    used: Weight,
)
    requires
        q.serviced(&next, &pause, limit, used),
    ensures
        used.ref_time <= limit.ref_time,
        used.proof_size <= limit.proof_size,
{
}

/// An overweight entry is resolved at most once: once an execution of it
/// succeeded, a second execution of the same handle, under any limit, is
/// refused as already processed and never reaches the processor.
pub proof fn lemma_resolved_once<Q: QueuePausedQuery>(
    q: MessageQueue,
    next: MessageQueue,
    pause: Q,
    limit: Weight,
    again: Weight,
    handle: u64,
    used: Weight,
)
    requires
        q.overweight_gate(&pause, limit, handle) is None,
        q.executed(&next, handle, Ok(used), limit),
    ensures
        next.overweight_gate(&pause, again, handle) == Some(
            ExecuteOverweightError::AlreadyProcessed,
        ),
{
}

/// Every message of a service pass is handed to the processor only while it
/// heads its queue, each turn going to the first ready origin on the ring
/// after the one serviced before it, and each message is resolved at most
/// once: for each origin, the number of its messages the pass resolved plus
/// the number still queued is the number queued before the pass.
pub proof fn lemma_handed_at_head<Q: QueuePausedQuery>(
    q: MessageQueue,
    next: MessageQueue,
    pause: Q,
    limit: Weight,
    used: Weight,
    o: u32,
)
    requires
        q.serviced(&next, &pause, limit, used),
    ensures
        forall|t: int|
            0 <= t < next.dispatched().len() - q.dispatched().len() ==> #[trigger] q.turn_ok(
                &pause,
                next.dispatched().subrange(q.dispatched().len() as int, next.dispatched().len() as int),
                t,
            ),
        forall|t: int|
            0 <= t < next.dispatched().len() - q.dispatched().len() ==> #[trigger] q.round_robin(
                &pause,
                next.dispatched().subrange(q.dispatched().len() as int, next.dispatched().len() as int),
                t,
            ),
        settled(
            next.dispatched().subrange(q.dispatched().len() as int, next.dispatched().len() as int),
            o,
        ) + next.queue(o).len() == q.queue(o).len(),
{
}

/// A pass with budget in both dimensions hands some message to the
/// processor whenever an unpaused origin has messages.
pub proof fn lemma_progress<Q: QueuePausedQuery>(
    q: MessageQueue,
    next: MessageQueue,
    pause: Q,
    limit: Weight,
    used: Weight,
    o: u32,
)
    requires
        q.serviced(&next, &pause, limit, used),
        !limit.has_zero(),
        q.queue(o).len() > 0,
        !pause.paused(o),
    ensures
        next.dispatched().len() > q.dispatched().len(),
{
    assert(q.queue(o).len() > 0 && !pause.paused(o));
}

/// No origin is starved: a pass that ends with weight left in every
/// dimension has serviced every unpaused origin until it ran out of messages
/// or gave up its turn.
pub proof fn lemma_no_starvation<Q: QueuePausedQuery>(
    q: MessageQueue,
    next: MessageQueue,
    pause: Q,
    limit: Weight,
    used: Weight,
    o: u32,
)
    requires
        q.serviced(&next, &pause, limit, used),
        !exhausted(limit, used),
        !pause.paused(o),
        !next.yielded().contains(o),
    ensures
        next.queue(o).len() == 0,
{
}

/// A paused origin is left alone by a service pass: its queue is unchanged
/// and none of its messages is handed to the processor; and an execution of
/// one of its overweight entries is refused.
pub proof fn lemma_pause_respected<Q: QueuePausedQuery>(
    q: MessageQueue,
    next: MessageQueue,
    pause: Q,
    limit: Weight,
    used: Weight,
    o: u32,
    handle: u64,
)
    requires
        q.serviced(&next, &pause, limit, used),
        pause.paused(o),
    ensures
        next.queue(o) == q.queue(o),
        forall|i: int|
            q.dispatched().len() <= i < next.dispatched().len() ==> (
            #[trigger] next.dispatched()[i]).origin != o,
        (!q.locked() && 0 <= handle < q.entries().len() && q.entries()[handle as int] is Live
            && q.entries()[handle as int]->Live_0.origin == o) ==> q.overweight_gate(
            &pause,
            limit,
            handle,
        ) == Some(ExecuteOverweightError::QueuePaused),
{
    assert forall|i: int|
        q.dispatched().len() <= i < next.dispatched().len() implies (
        #[trigger] next.dispatched()[i]).origin != o by {
        let log = next.dispatched().subrange(q.dispatched().len() as int, next.dispatched().len() as int);
        let t = i - q.dispatched().len();
        assert(log[t] == next.dispatched()[i]);
        assert(q.turn_ok(&pause, log, t));
    }
}

} // verus!
