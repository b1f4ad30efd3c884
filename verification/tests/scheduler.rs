use novigrad::scheduler::is_schedulable;
use novigrad::{
    make_streams, ExecutionUnit, Scheduler, Stream, StreamState, TransactionEmitter, STOP,
};
use std::collections::VecDeque;

fn stream(id: usize, dependencies: Vec<usize>, instructions: Vec<usize>) -> Stream {
    Stream { id, state: StreamState::Unreached, dependencies, instructions }
}

/// Stream 2 waits for streams 0 and 1, stream 3 waits for stream 2.
fn diamond() -> Vec<Stream> {
    vec![
        stream(0, vec![], vec![0]),
        stream(1, vec![], vec![1]),
        stream(2, vec![0, 1], vec![2]),
        stream(3, vec![2], vec![3]),
    ]
}

#[test]
fn streams_without_dependencies_are_dispatched_at_the_start() {
    let streams = diamond();
    let mut dispatch_queue = VecDeque::new();
    let _scheduler = Scheduler::new(&streams, &mut dispatch_queue);
    assert_eq!(dispatch_queue, VecDeque::from(vec![0, 1]));
    // What stood on the queue stays in front.
    let mut dispatch_queue = VecDeque::from(vec![7]);
    let _scheduler = Scheduler::new(&streams, &mut dispatch_queue);
    assert_eq!(dispatch_queue, VecDeque::from(vec![7, 0, 1]));
}

#[test]
fn maybe_dispatch_dispatches_what_waits_for_nothing() {
    let streams = diamond();
    let mut dispatch_queue = VecDeque::new();
    let scheduler = Scheduler::new(&streams, &mut dispatch_queue);
    dispatch_queue.clear();
    scheduler.maybe_dispatch(2, &mut dispatch_queue);
    assert!(dispatch_queue.is_empty());
    scheduler.maybe_dispatch(1, &mut dispatch_queue);
    assert_eq!(dispatch_queue, VecDeque::from(vec![1]));
}

#[test]
fn a_stream_is_dispatched_when_its_last_dependency_completes() {
    let streams = diamond();
    let mut dispatch_queue = VecDeque::new();
    let mut scheduler = Scheduler::new(&streams, &mut dispatch_queue);
    dispatch_queue.clear();
    let mut completion_queue = VecDeque::new();

    // Nothing has completed: nothing happens.
    assert!(scheduler.step(&mut completion_queue, &mut dispatch_queue));
    assert!(dispatch_queue.is_empty());

    completion_queue.push_back(1);
    assert!(scheduler.step(&mut completion_queue, &mut dispatch_queue));
    assert!(completion_queue.is_empty());
    assert!(dispatch_queue.is_empty());

    completion_queue.push_back(0);
    assert!(scheduler.step(&mut completion_queue, &mut dispatch_queue));
    assert_eq!(dispatch_queue, VecDeque::from(vec![2]));

    completion_queue.push_back(2);
    assert!(scheduler.step(&mut completion_queue, &mut dispatch_queue));
    assert_eq!(dispatch_queue, VecDeque::from(vec![2, 3]));

    // The last completion brings the stop token.
    completion_queue.push_back(3);
    assert!(!scheduler.step(&mut completion_queue, &mut dispatch_queue));
    assert_eq!(dispatch_queue, VecDeque::from(vec![2, 3, STOP]));
}

#[test]
fn one_completion_at_a_time() {
    let streams = diamond();
    let mut dispatch_queue = VecDeque::new();
    let mut scheduler = Scheduler::new(&streams, &mut dispatch_queue);
    dispatch_queue.clear();
    let mut completion_queue = VecDeque::from(vec![0, 1]);
    assert!(scheduler.step(&mut completion_queue, &mut dispatch_queue));
    assert_eq!(completion_queue, VecDeque::from(vec![1]));
    assert!(dispatch_queue.is_empty());
    assert!(scheduler.step(&mut completion_queue, &mut dispatch_queue));
    assert_eq!(dispatch_queue, VecDeque::from(vec![2]));
}

#[test]
fn without_streams_the_first_step_stops() {
    let streams: Vec<Stream> = vec![];
    let mut dispatch_queue = VecDeque::new();
    let mut scheduler = Scheduler::new(&streams, &mut dispatch_queue);
    let mut completion_queue = VecDeque::new();
    assert!(dispatch_queue.is_empty());
    assert!(!scheduler.step(&mut completion_queue, &mut dispatch_queue));
    assert_eq!(dispatch_queue, VecDeque::from(vec![STOP]));
}

#[test]
fn the_stop_token_is_no_stream() {
    assert_eq!(STOP, usize::MAX);
}

#[test]
fn the_execution_unit_runs_what_is_dispatched() {
    let simple = vec![(vec![], vec![5]), (vec![5], vec![6]), (vec![5], vec![7])];
    let streams = make_streams(&simple);
    let instructions = Vec::new();
    let handler = TransactionEmitter::new(&streams, &simple);
    let mut unit = ExecutionUnit::new(handler, &streams, &instructions);
    let mut dispatch_queue = VecDeque::new();
    let mut completion_queue = VecDeque::new();

    // An empty queue: nothing to do, go on.
    assert_eq!(unit.step(&mut dispatch_queue, &mut completion_queue), Ok(true));
    assert!(completion_queue.is_empty());

    dispatch_queue.push_back(0);
    dispatch_queue.push_back(STOP);
    assert_eq!(unit.step(&mut dispatch_queue, &mut completion_queue), Ok(true));
    assert_eq!(completion_queue, VecDeque::from(vec![0]));
    assert_eq!(dispatch_queue, VecDeque::from(vec![STOP]));

    assert_eq!(unit.step(&mut dispatch_queue, &mut completion_queue), Ok(false));
    assert!(dispatch_queue.is_empty());
    assert_eq!(completion_queue, VecDeque::from(vec![0]));

    let handler = unit.into_handler();
    assert_eq!(handler.actual_transactions.len(), 5);
}

#[test]
fn a_completion_is_accepted_once() {
    let streams = diamond();
    let mut dispatch_queue = VecDeque::new();
    let mut scheduler = Scheduler::new(&streams, &mut dispatch_queue);
    assert!(scheduler.accepts(0));
    assert!(scheduler.accepts(1));
    assert!(!scheduler.accepts(4));
    assert_eq!(scheduler.completed_streams(), 0);
    let mut completion_queue = VecDeque::from(vec![0]);
    scheduler.step(&mut completion_queue, &mut dispatch_queue);
    assert_eq!(scheduler.completed_streams(), 1);
    completion_queue.push_back(1);
    scheduler.step(&mut completion_queue, &mut dispatch_queue);
    // Stream 2 waits for nothing any more: to lower its count again is
    // refused.
    assert!(!scheduler.accepts(0));
    assert!(!scheduler.accepts(1));
    assert!(scheduler.accepts(2));
}

#[test]
fn what_the_scheduler_can_work_with() {
    assert!(is_schedulable(&diamond()));
    assert!(is_schedulable(&[]));
    // A stream that waits for itself, for a later stream, or twice for the
    // same stream.
    assert!(!is_schedulable(&[stream(0, vec![0], vec![0])]));
    assert!(!is_schedulable(&[stream(0, vec![1], vec![0]), stream(1, vec![], vec![1])]));
    assert!(!is_schedulable(&[stream(0, vec![], vec![0]), stream(1, vec![0, 0], vec![1])]));
}
