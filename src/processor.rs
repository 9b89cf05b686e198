use vstd::prelude::*;

use crate::queue::MessageQueue;
use crate::weight::{Weight, WeightMeter};

verus! {

/// Why a message was not processed.
#[derive(Clone, Copy, Debug, PartialEq, Eq, Structural)]
pub enum ProcessMessageError {
    /// The message data format is unknown.
    BadFormat,
    /// The message data is bad.
    Corrupt,
    /// The message format is not supported.
    Unsupported,
    /// Processing was not attempted since the weight limit might not be
    /// respected; the parameter is the most weight the message could take.
    Overweight(Weight),
    /// The processor gives up the current turn of this queue.
    Yield,
    /// Processing reached the stack depth limit.
    StackLimitReached,
}

/// What becomes of a message after one attempt to process it.
#[derive(Clone, Copy, Debug, PartialEq, Eq, Structural)]
pub enum Resolution {
    /// Processed, or permanently rejected: the message is gone.
    Consumed,
    /// Not processed this time: the message stays where it is.
    Retry,
    /// Needs more weight than offered: the message is set aside with the
    /// weight it is known to need.
    SetAside(Weight),
}

/// The resolution of a processing outcome, as the service loop applies it.
///
/// A stack-depth failure is set aside like an overweight message, but
/// records no extra weight: a later retry needs no larger budget.
pub open spec fn resolution_spec(outcome: Result<bool, ProcessMessageError>) -> Resolution {
    match outcome {
        Ok(true) => Resolution::Consumed,
        Ok(false) => Resolution::Retry,
        Err(ProcessMessageError::BadFormat) => Resolution::Consumed,
        Err(ProcessMessageError::Corrupt) => Resolution::Consumed,
        Err(ProcessMessageError::Unsupported) => Resolution::Consumed,
        Err(ProcessMessageError::Overweight(w)) => Resolution::SetAside(w),
        Err(ProcessMessageError::Yield) => Resolution::Retry,
        Err(ProcessMessageError::StackLimitReached) => Resolution::SetAside(Weight::zero_spec()),
    }
}

/// Maps the outcome of one processing attempt to what happens to the message.
pub fn resolution_of(outcome: &Result<bool, ProcessMessageError>) -> (r: Resolution)
    ensures
        r == resolution_spec(*outcome),
{
    match outcome {
        Ok(true) => Resolution::Consumed,
        Ok(false) => Resolution::Retry,
        Err(ProcessMessageError::BadFormat) => Resolution::Consumed,
        Err(ProcessMessageError::Corrupt) => Resolution::Consumed,
        Err(ProcessMessageError::Unsupported) => Resolution::Consumed,
        Err(ProcessMessageError::Overweight(w)) => Resolution::SetAside(*w),
        Err(ProcessMessageError::Yield) => Resolution::Retry,
        Err(ProcessMessageError::StackLimitReached) => Resolution::SetAside(Weight::zero()),
    }
}

/// Processes messages of some origin.
///
/// While it runs, the queue that called it is locked: it is handed to the
/// processor so that the processor can query it, and a nested call of
/// `service_queues` or `execute_overweight` on it is refused and changes
/// nothing. The processor leaves the queue as it found it.
pub trait ProcessMessage {
    /// Processes `message` of `origin`, consuming weight from `meter` only,
    /// and writes the message's identifier to `id`. Returns whether the
    /// message was processed.
    fn process_message(
        &mut self,
        message: &[u8],
        origin: u32,
        meter: &mut WeightMeter,
        id: &mut [u8; 32],
        queue: &mut MessageQueue,
    ) -> (r: Result<bool, ProcessMessageError>)
        requires
            old(meter).wf(),
            old(queue).locked(),
        ensures
            old(meter).advanced_to(final(meter)),
            *final(queue) == *old(queue),
    ;
}

} // verus!
