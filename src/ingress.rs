use vstd::prelude::*;

use crate::queue::{
    bytes_of, capped, capped32, overweight_of, MessageQueue, OverweightSlot, QueueFootprint,
};

verus! {

/// Ingress for one fixed origin: every message handled here is enqueued
/// for `origin`.
pub struct EnqueueWithOrigin {
    pub origin: u32,
}

impl EnqueueWithOrigin {
    pub fn new(origin: u32) -> (r: EnqueueWithOrigin)
        ensures
            r.origin == origin,
    {
        EnqueueWithOrigin { origin }
    }

    /// Enqueues `message` for the fixed origin.
    pub fn handle_message(&self, queue: &mut MessageQueue, message: Vec<u8>)
        requires
            old(queue).wf(),
            message@.len() <= old(queue).max_len(),
        ensures
            final(queue).wf(),
            old(queue).same_frame(&*final(queue)),
            final(queue).queue(self.origin) == old(queue).queue(self.origin).push(message@),
            forall|o: u32| o != self.origin ==> #[trigger] final(queue).queue(o) == old(queue).queue(o),
    {
        queue.enqueue_message(message, self.origin);
    }

    /// Enqueues `messages`, in order, for the fixed origin.
    pub fn handle_messages(&self, queue: &mut MessageQueue, messages: Vec<Vec<u8>>)
        requires
            old(queue).wf(),
            forall|i: int| 0 <= i < messages@.len() ==> (#[trigger] messages@[i])@.len() <= old(queue).max_len(),
        ensures
            final(queue).wf(),
            old(queue).same_frame(&*final(queue)),
            final(queue).queue(self.origin) == old(queue).queue(self.origin)
                + crate::page::messages_view(messages@),
            forall|o: u32| o != self.origin ==> #[trigger] final(queue).queue(o) == old(queue).queue(o),
    {
        queue.enqueue_messages(messages, self.origin);
    }

    /// Discards the fixed origin's messages and overweight entries.
    pub fn sweep_queue(&self, queue: &mut MessageQueue)
        requires
            old(queue).wf(),
        ensures
            final(queue).wf(),
            final(queue).locked() == old(queue).locked(),
            final(queue).capacity() == old(queue).capacity(),
            final(queue).max_len() == old(queue).max_len(),
            final(queue).dispatched() == old(queue).dispatched(),
            final(queue).yielded() == old(queue).yielded(),
            final(queue).queue(self.origin) == Seq::<Seq<u8>>::empty(),
            forall|o: u32| o != self.origin ==> #[trigger] final(queue).queue(o) == old(queue).queue(o),
            final(queue).entries().len() == old(queue).entries().len(),
            forall|h: int|
                0 <= h < old(queue).entries().len() ==> #[trigger] final(queue).entries()[h] == if old(
                    queue,
                ).entries()[h] matches OverweightSlot::Live(e) && e.origin == self.origin {
                    OverweightSlot::Released
                } else {
                    old(queue).entries()[h]
                },
    {
        queue.sweep_queue(self.origin);
    }

    /// The footprint of the fixed origin's queue.
    pub fn footprint(&self, queue: &MessageQueue) -> (r: QueueFootprint)
        requires
            queue.wf(),
        ensures
            r.pages == capped32(queue.page_count(self.origin)),
            r.ready_pages == r.pages,
            r.storage.count == capped(
                queue.queue(self.origin).len() + overweight_of(queue.entries(), self.origin).len(),
            ),
            r.storage.size == capped(
                bytes_of(queue.queue(self.origin)) + bytes_of(overweight_of(queue.entries(), self.origin)),
            ),
    {
        queue.footprint(self.origin)
    }
}

} // verus!
