use message_queue::{
    resolution_of, AnyPaused, EnqueueWithOrigin, ExecuteOverweightError, MessageQueue, NothingPaused,
    PausedOrigins, ProcessMessage, ProcessMessageError, Resolution, Weight, WeightMeter,
};

const A: u32 = 1;
const B: u32 = 2;
const C: u32 = 3;

/// Charges a fixed cost per message and decides by the first byte:
/// `O` needs 100 of each dimension, `Y` yields, `N` is not processed,
/// `B` is malformed, `S` hits the stack limit; anything else is processed.
struct Scripted {
    cost: Weight,
    seen: Vec<(u32, Vec<u8>)>,
    processed: Vec<(u32, Vec<u8>)>,
}

impl Scripted {
    fn new(cost: u64) -> Scripted {
        Scripted { cost: Weight::from_parts(cost, cost), seen: Vec::new(), processed: Vec::new() }
    }
}

impl ProcessMessage for Scripted {
    fn process_message(
        &mut self,
        message: &[u8],
        origin: u32,
        meter: &mut WeightMeter,
        id: &mut [u8; 32],
        _queue: &mut MessageQueue,
    ) -> Result<bool, ProcessMessageError> {
        self.seen.push((origin, message.to_vec()));
        match message.first() {
            Some(b'O') => return Err(ProcessMessageError::Overweight(Weight::from_parts(100, 100))),
            Some(b'Y') => return Err(ProcessMessageError::Yield),
            Some(b'B') => return Err(ProcessMessageError::BadFormat),
            Some(b'S') => return Err(ProcessMessageError::StackLimitReached),
            Some(b'N') => return Ok(false),
            _ => {}
        }
        if meter.try_consume(self.cost).is_err() {
            return Err(ProcessMessageError::Overweight(self.cost));
        }
        id[0] = 1;
        self.processed.push((origin, message.to_vec()));
        Ok(true)
    }
}

/// Tries to execute overweight entry 0 from inside the processor.
struct Reentrant {
    nested_execute: Option<Result<Weight, ExecuteOverweightError>>,
    nested_service: Option<Weight>,
}

impl ProcessMessage for Reentrant {
    fn process_message(
        &mut self,
        _message: &[u8],
        _origin: u32,
        meter: &mut WeightMeter,
        _id: &mut [u8; 32],
        queue: &mut MessageQueue,
    ) -> Result<bool, ProcessMessageError> {
        let mut inner = Scripted::new(1);
        self.nested_execute =
            Some(queue.execute_overweight(&mut inner, &NothingPaused, Weight::from_parts(1000, 1000), 0));
        self.nested_service =
            Some(queue.service_queues(&mut inner, &NothingPaused, Weight::from_parts(1000, 1000)));
        let _ = meter.try_consume(Weight::from_parts(1, 1));
        Ok(true)
    }
}

fn w(x: u64) -> Weight {
    Weight::from_parts(x, x)
}

fn msg(s: &str) -> Vec<u8> {
    s.as_bytes().to_vec()
}

#[test]
fn fair_service_of_two_origins() {
    let mut q = MessageQueue::new(4, 64);
    q.enqueue_message(msg("a1"), A);
    q.enqueue_message(msg("a2"), A);
    q.enqueue_message(msg("a3"), A);
    q.enqueue_message(msg("b1"), B);
    let mut p = Scripted::new(10);
    let used = q.service_queues(&mut p, &NothingPaused, w(20));
    assert_eq!(used, w(20));
    assert_eq!(p.processed.len(), 2);
    assert!(p.processed.contains(&(A, msg("a1"))));
    assert!(p.processed.contains(&(B, msg("b1"))));
    assert_eq!(q.footprint(A).storage.count, 2);
    assert_eq!(q.footprint(B).storage.count, 0);
    let used = q.service_queues(&mut p, &NothingPaused, w(100));
    assert_eq!(used, w(20));
    assert_eq!(p.processed[2..].to_vec(), vec![(A, msg("a2")), (A, msg("a3"))]);
}

#[test]
fn overweight_message_is_set_aside() {
    let mut q = MessageQueue::new(4, 64);
    q.enqueue_message(msg("O-big"), A);
    q.enqueue_message(msg("small"), A);
    let mut p = Scripted::new(1);
    let used = q.service_queues(&mut p, &NothingPaused, w(10));
    assert_eq!(used, w(1));
    assert_eq!(p.processed, vec![(A, msg("small"))]);
    assert_eq!(q.overweight_len(), 1);
    let e = q.overweight_entry(0).unwrap();
    assert_eq!(e.origin, A);
    assert_eq!(e.required, w(100));
    assert_eq!(e.message, msg("O-big"));
    assert_eq!(e.index, 0);
    assert_eq!(q.footprint(A).pages, 0);
    assert_eq!(q.footprint(A).storage.count, 1);
    assert_eq!(q.footprint(A).storage.size, 5);
}

/// Processes `O` messages too, at a cost of 60.
struct Heavy;

impl ProcessMessage for Heavy {
    fn process_message(
        &mut self,
        _message: &[u8],
        _origin: u32,
        meter: &mut WeightMeter,
        _id: &mut [u8; 32],
        _queue: &mut MessageQueue,
    ) -> Result<bool, ProcessMessageError> {
        match meter.try_consume(w(60)) {
            Ok(()) => Ok(true),
            Err(()) => Err(ProcessMessageError::Overweight(w(60))),
        }
    }
}

#[test]
fn execute_overweight_needs_enough_weight() {
    let mut q = MessageQueue::new(4, 64);
    q.enqueue_message(msg("O-big"), A);
    let mut p = Scripted::new(1);
    q.service_queues(&mut p, &NothingPaused, w(10));
    let mut heavy = Heavy;
    assert_eq!(
        q.execute_overweight(&mut heavy, &NothingPaused, w(50), 0),
        Err(ExecuteOverweightError::InsufficientWeight)
    );
    let e = q.overweight_entry(0).unwrap();
    assert_eq!(e.required, w(100));
    assert_eq!(e.message, msg("O-big"));
    assert_eq!(q.execute_overweight(&mut heavy, &NothingPaused, w(100), 0), Ok(w(60)));
    assert!(q.overweight_entry(0).is_none());
}

#[test]
fn reentrant_execute_is_refused() {
    let mut q = MessageQueue::new(4, 64);
    q.enqueue_message(msg("O-big"), A);
    let mut p = Scripted::new(1);
    q.service_queues(&mut p, &NothingPaused, w(10));
    q.enqueue_message(msg("x"), B);
    let mut r = Reentrant { nested_execute: None, nested_service: None };
    let used = q.service_queues(&mut r, &NothingPaused, w(10));
    assert_eq!(used, w(1));
    assert_eq!(r.nested_execute, Some(Err(ExecuteOverweightError::RecursiveDisallowed)));
    assert_eq!(r.nested_service, Some(Weight::zero()));
    assert!(q.overweight_entry(0).is_some());
    assert!(!q.is_busy());
    // The same refusal from inside an overweight execution.
    let mut r = Reentrant { nested_execute: None, nested_service: None };
    assert_eq!(q.execute_overweight(&mut r, &NothingPaused, w(100), 0), Ok(w(1)));
    assert_eq!(r.nested_execute, Some(Err(ExecuteOverweightError::RecursiveDisallowed)));
}

#[test]
fn messages_resolve_in_enqueue_order() {
    let mut q = MessageQueue::new(2, 64);
    let all: Vec<Vec<u8>> = (0..7u8).map(|i| vec![b'm', i]).collect();
    q.enqueue_messages(all[..3].to_vec(), A);
    for m in &all[3..] {
        q.enqueue_message(m.clone(), A);
    }
    assert_eq!(q.footprint(A).pages, 4);
    let mut p = Scripted::new(5);
    for _ in 0..7 {
        let used = q.service_queues(&mut p, &NothingPaused, w(5));
        assert_eq!(used, w(5));
    }
    let order: Vec<Vec<u8>> = p.processed.iter().map(|(_, m)| m.clone()).collect();
    assert_eq!(order, all);
}

#[test]
fn used_weight_never_exceeds_limit() {
    let mut q = MessageQueue::new(3, 64);
    for i in 0..10u8 {
        q.enqueue_message(vec![i], A + (i as u32 % 3));
    }
    let mut p = Scripted::new(3);
    let limit = Weight::from_parts(10, 100);
    let used = q.service_queues(&mut p, &NothingPaused, limit);
    assert!(used.all_lte(&limit));
    assert_eq!(used, Weight::from_parts(9, 9));
}

#[test]
fn second_execution_is_already_processed() {
    let mut q = MessageQueue::new(4, 64);
    q.enqueue_message(msg("O-big"), A);
    let mut p = Scripted::new(1);
    q.service_queues(&mut p, &NothingPaused, w(10));
    let mut heavy = Heavy;
    assert_eq!(q.execute_overweight(&mut heavy, &NothingPaused, w(100), 0), Ok(w(60)));
    let mut again = Scripted::new(1);
    assert_eq!(
        q.execute_overweight(&mut again, &NothingPaused, w(100), 0),
        Err(ExecuteOverweightError::AlreadyProcessed)
    );
    assert!(again.seen.is_empty());
    assert_eq!(
        q.execute_overweight(&mut again, &NothingPaused, w(100), 1),
        Err(ExecuteOverweightError::NotFound)
    );
}

#[test]
fn every_ready_origin_advances_in_one_pass() {
    let mut q = MessageQueue::new(4, 64);
    q.enqueue_message(msg("a1"), A);
    q.enqueue_message(msg("a2"), A);
    q.enqueue_message(msg("b1"), B);
    q.enqueue_message(msg("c1"), C);
    let mut p = Scripted::new(1);
    q.service_queues(&mut p, &NothingPaused, w(3));
    let origins: Vec<u32> = p.processed.iter().map(|(o, _)| *o).collect();
    assert!(origins.contains(&A) && origins.contains(&B) && origins.contains(&C));
}

#[test]
fn yielding_origin_does_not_block_others() {
    let mut q = MessageQueue::new(4, 64);
    q.enqueue_message(msg("Y"), A);
    q.enqueue_message(msg("a2"), A);
    q.enqueue_message(msg("b1"), B);
    q.enqueue_message(msg("b2"), B);
    let mut p = Scripted::new(1);
    let used = q.service_queues(&mut p, &NothingPaused, w(100));
    assert_eq!(used, w(2));
    assert_eq!(p.processed, vec![(B, msg("b1")), (B, msg("b2"))]);
    assert_eq!(q.footprint(A).storage.count, 2);
    // The yielding message stays at the head and is offered again next pass.
    let seen_before = p.seen.len();
    q.service_queues(&mut p, &NothingPaused, w(100));
    assert_eq!(p.seen[seen_before], (A, msg("Y")));
}

#[test]
fn paused_origin_is_left_alone() {
    let mut q = MessageQueue::new(4, 64);
    q.enqueue_message(msg("a1"), A);
    q.enqueue_message(msg("O-big"), B);
    q.enqueue_message(msg("b1"), B);
    let mut p = Scripted::new(1);
    q.service_queues(&mut p, &NothingPaused, w(10));
    q.enqueue_message(msg("a2"), A);
    let mut paused = PausedOrigins::new();
    paused.pause(A);
    paused.pause(B);
    let seen_before = p.seen.len();
    let used = q.service_queues(&mut p, &paused, w(10));
    assert_eq!(used, Weight::zero());
    assert_eq!(p.seen.len(), seen_before);
    assert_eq!(
        q.execute_overweight(&mut p, &paused, w(100), 0),
        Err(ExecuteOverweightError::QueuePaused)
    );
    assert_eq!(p.seen.len(), seen_before);
    paused.resume(A);
    q.service_queues(&mut p, &paused, w(10));
    assert_eq!(p.seen[seen_before..].to_vec(), vec![(A, msg("a2"))]);
}

#[test]
fn any_source_pausing_pauses() {
    let mut first = PausedOrigins::new();
    first.pause(A);
    let mut second = PausedOrigins::new();
    second.pause(B);
    let any = AnyPaused { sources: vec![first, second] };
    let mut q = MessageQueue::new(4, 64);
    q.enqueue_message(msg("a"), A);
    q.enqueue_message(msg("b"), B);
    q.enqueue_message(msg("c"), C);
    let mut p = Scripted::new(1);
    q.service_queues(&mut p, &any, w(10));
    assert_eq!(p.seen, vec![(C, msg("c"))]);
    let none: AnyPaused<PausedOrigins> = AnyPaused { sources: Vec::new() };
    q.service_queues(&mut p, &none, w(10));
    assert_eq!(p.processed.len(), 3);
}

#[test]
fn permanent_failures_are_dropped() {
    let mut q = MessageQueue::new(4, 64);
    q.enqueue_message(msg("Bad"), A);
    q.enqueue_message(msg("ok"), A);
    let mut p = Scripted::new(1);
    let used = q.service_queues(&mut p, &NothingPaused, w(10));
    assert_eq!(used, w(1));
    assert_eq!(p.processed, vec![(A, msg("ok"))]);
    assert_eq!(q.overweight_len(), 0);
    assert_eq!(q.footprint(A).storage.count, 0);
}

#[test]
fn stack_limit_is_set_aside_without_extra_weight() {
    let mut q = MessageQueue::new(4, 64);
    q.enqueue_message(msg("S"), A);
    let mut p = Scripted::new(1);
    q.service_queues(&mut p, &NothingPaused, w(10));
    assert_eq!(q.overweight_entry(0).unwrap().required, Weight::zero());
}

#[test]
fn unprocessed_message_stays_at_head() {
    let mut q = MessageQueue::new(4, 64);
    q.enqueue_message(msg("N"), A);
    q.enqueue_message(msg("a2"), A);
    let mut p = Scripted::new(1);
    let used = q.service_queues(&mut p, &NothingPaused, w(10));
    assert_eq!(used, Weight::zero());
    assert_eq!(p.seen, vec![(A, msg("N"))]);
    assert_eq!(q.footprint(A).storage.count, 2);
}

#[test]
fn overweight_execution_not_processed_is_other() {
    let mut q = MessageQueue::new(4, 64);
    q.enqueue_message(msg("O"), A);
    let mut p = Scripted::new(1);
    q.service_queues(&mut p, &NothingPaused, w(10));
    // The scripted processor still finds the message overweight.
    assert_eq!(
        q.execute_overweight(&mut p, &NothingPaused, w(100), 0),
        Err(ExecuteOverweightError::InsufficientWeight)
    );
    assert!(q.overweight_entry(0).is_some());
}

#[test]
fn sweep_discards_queue_and_overweight() {
    let mut q = MessageQueue::new(2, 64);
    q.enqueue_message(msg("O-big"), A);
    q.enqueue_message(msg("a"), B);
    let mut p = Scripted::new(1);
    q.service_queues(&mut p, &NothingPaused, w(10));
    assert_eq!(q.overweight_len(), 1);
    q.enqueue_messages(vec![msg("x"), msg("y"), msg("z")], A);
    assert_eq!(q.footprint(A).pages, 2);
    assert_eq!(q.footprint(A).storage.count, 4);
    q.sweep_queue(A);
    assert_eq!(q.footprint(A).pages, 0);
    assert_eq!(q.footprint(A).storage.count, 0);
    assert_eq!(q.footprint(A).storage.size, 0);
    let seen_before = p.seen.len();
    assert_eq!(
        q.execute_overweight(&mut p, &NothingPaused, w(100), 0),
        Err(ExecuteOverweightError::NotFound)
    );
    assert_eq!(p.seen.len(), seen_before);
}

#[test]
fn empty_queue_uses_nothing() {
    let mut q = MessageQueue::new(0, 8);
    let mut p = Scripted::new(1);
    assert_eq!(q.service_queues(&mut p, &NothingPaused, w(10)), Weight::zero());
    assert_eq!(q.footprint(A).pages, 0);
    assert_eq!(q.max_message_len(), 8);
    q.enqueue_message(msg("a"), A);
    q.enqueue_message(msg("b"), A);
    assert_eq!(q.footprint(A).pages, 2);
    assert_eq!(q.footprint(A).ready_pages, 2);
    assert_eq!(q.footprint(A).storage.size, 2);
}

#[test]
fn zero_budget_processes_nothing() {
    let mut q = MessageQueue::new(4, 8);
    q.enqueue_message(msg("a"), A);
    let mut p = Scripted::new(1);
    assert_eq!(q.service_queues(&mut p, &NothingPaused, Weight::from_parts(10, 0)), Weight::zero());
    assert!(p.seen.is_empty());
}

#[test]
fn weight_arithmetic() {
    let a = Weight::from_parts(5, 10);
    let b = Weight::from_parts(7, 3);
    assert_eq!(a.saturating_sub(&b), Weight::from_parts(0, 7));
    assert_eq!(a.checked_add(&b), Some(Weight::from_parts(12, 13)));
    assert_eq!(Weight::from_parts(u64::MAX, 0).checked_add(&b), None);
    assert!(!a.all_lte(&b));
    assert!(a.any_lt(&b));
    assert!(Weight::from_parts(0, 3).any_zero());
    assert_eq!(a.ref_time(), 5);
    assert_eq!(a.proof_size(), 10);
}

#[test]
fn meter_stays_within_limit() {
    let mut m = WeightMeter::with_limit(Weight::from_parts(10, 10));
    assert!(m.try_consume(Weight::from_parts(6, 2)).is_ok());
    assert!(m.try_consume(Weight::from_parts(6, 2)).is_err());
    assert_eq!(m.consumed(), Weight::from_parts(6, 2));
    assert_eq!(m.remaining(), Weight::from_parts(4, 8));
    assert!(m.can_consume(Weight::from_parts(4, 8)));
    assert!(!m.can_consume(Weight::from_parts(5, 0)));
    assert_eq!(m.limit(), Weight::from_parts(10, 10));
}

#[test]
fn outcomes_map_to_resolutions() {
    assert_eq!(resolution_of(&Ok(true)), Resolution::Consumed);
    assert_eq!(resolution_of(&Ok(false)), Resolution::Retry);
    assert_eq!(resolution_of(&Err(ProcessMessageError::BadFormat)), Resolution::Consumed);
    assert_eq!(resolution_of(&Err(ProcessMessageError::Corrupt)), Resolution::Consumed);
    assert_eq!(resolution_of(&Err(ProcessMessageError::Unsupported)), Resolution::Consumed);
    assert_eq!(
        resolution_of(&Err(ProcessMessageError::Overweight(w(3)))),
        Resolution::SetAside(w(3))
    );
    assert_eq!(resolution_of(&Err(ProcessMessageError::Yield)), Resolution::Retry);
    assert_eq!(
        resolution_of(&Err(ProcessMessageError::StackLimitReached)),
        Resolution::SetAside(Weight::zero())
    );
}

#[test]
fn single_origin_ingress() {
    let mut q = MessageQueue::new(4, 64);
    let ingress = EnqueueWithOrigin::new(B);
    ingress.handle_message(&mut q, msg("one"));
    ingress.handle_messages(&mut q, vec![msg("two"), msg("three")]);
    let f = ingress.footprint(&q);
    assert_eq!(f.storage.count, 3);
    assert_eq!(f.storage.size, 11);
    assert_eq!(f.pages, 1);
    assert_eq!(q.footprint(A).storage.count, 0);
    let mut p = Scripted::new(1);
    q.service_queues(&mut p, &NothingPaused, w(1));
    assert_eq!(p.processed, vec![(B, msg("one"))]);
    ingress.sweep_queue(&mut q);
    assert_eq!(ingress.footprint(&q).storage.count, 0);
}

#[test]
fn overweight_outcomes_are_applied() {
    let mut q = MessageQueue::new(4, 64);
    q.enqueue_message(msg("O-one"), A);
    q.enqueue_message(msg("O-two"), A);
    let mut p = Scripted::new(1);
    q.service_queues(&mut p, &NothingPaused, w(10));
    assert_eq!(q.overweight_len(), 2);
    assert_eq!(
        q.apply_overweight_outcome(0, &Err(ProcessMessageError::Yield), w(3)),
        Err(ExecuteOverweightError::Other)
    );
    assert_eq!(q.overweight_entry(0).unwrap().required, w(100));
    assert_eq!(
        q.apply_overweight_outcome(0, &Err(ProcessMessageError::Overweight(w(150))), w(3)),
        Err(ExecuteOverweightError::InsufficientWeight)
    );
    assert_eq!(q.overweight_entry(0).unwrap().required, w(150));
    assert_eq!(q.overweight_entry(0).unwrap().message, msg("O-one"));
    assert_eq!(q.apply_overweight_outcome(0, &Ok(true), w(7)), Ok(w(7)));
    assert!(q.overweight_entry(0).is_none());
    assert_eq!(
        q.execute_overweight(&mut p, &NothingPaused, w(1000), 0),
        Err(ExecuteOverweightError::AlreadyProcessed)
    );
    assert_eq!(
        q.apply_overweight_outcome(1, &Err(ProcessMessageError::Corrupt), w(2)),
        Ok(w(2))
    );
    assert!(q.overweight_entry(1).is_none());
}

#[test]
fn turns_rotate_across_passes() {
    let mut q = MessageQueue::new(4, 64);
    for o in [A, B, C] {
        q.enqueue_messages(vec![vec![o as u8, 1], vec![o as u8, 2]], o);
    }
    let mut p = Scripted::new(1);
    for _ in 0..6 {
        q.service_queues(&mut p, &NothingPaused, w(1));
    }
    let origins: Vec<u32> = p.processed.iter().map(|(o, _)| *o).collect();
    assert_eq!(origins, vec![B, C, A, B, C, A]);
}
