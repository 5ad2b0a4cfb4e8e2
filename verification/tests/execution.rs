use std::sync::Arc;

use daft_flotilla::error::{DaftError, GenericError};
use daft_flotilla::executor::{
    context_value, finish_input_streams, next_auto_fingerprint, parse_context,
    task_events_enabled, task_start, AutoNumbers, ContextEntry, EnqueueInputMessage, ExecutionEngineResult,
    ExecutionEngineResultItem, ExecutionLoop, FinishedInput, LoopAction, LoopEvent, MessageRouter,
    NativeExecutor, PipelineMessage, QueryEndState, Routed, RunOutcome,
};
use daft_flotilla::flight::FlightPartitionRef;

fn generation(outcome: RunOutcome) -> u64 {
    match outcome {
        RunOutcome::Joined { generation } => generation,
        RunOutcome::Build => unreachable!(),
    }
}

/// Builds a pipeline where none can be joined.
fn start(
    executor: &mut NativeExecutor<&'static str>,
    numbers: &mut AutoNumbers,
    fingerprint: u64,
    input_id: u32,
    closed: bool,
    pipeline: &'static str,
) -> u64 {
    match executor.run(numbers, fingerprint, input_id, closed, None) {
        RunOutcome::Joined { generation } => generation,
        RunOutcome::Build => {
            generation(executor.run(numbers, fingerprint, input_id, false, Some(pipeline)))
        }
    }
}

#[test]
fn late_finisher_cannot_remove_replacement_generation() {
    let mut numbers = AutoNumbers::new();
    let mut executor = NativeExecutor::new(false);
    let fingerprint = 123;
    let first = start(&mut executor, &mut numbers, fingerprint, 0, false, "first");
    // The first pipeline is dead, but its input has not been finished.
    let second = start(&mut executor, &mut numbers, fingerprint, 1, true, "second");
    assert_ne!(first, second);
    assert_eq!(executor.plans.iter().filter(|p| p.retired).count(), 1);
    assert!(matches!(
        executor.try_finish(fingerprint, 0, first, true),
        FinishedInput::Removed(plan) if plan.handle == "first"
    ));
    assert_eq!(executor.plans.len(), 1);
    assert_eq!(executor.plans[0].generation, second);
    assert!(!executor.plans[0].retired);
    assert!(matches!(
        executor.try_finish(fingerprint, 1, second, false),
        FinishedInput::Removed(plan) if plan.handle == "second"
    ));
    assert!(executor.plans.is_empty());
}

#[test]
fn pipeline_failure_reaches_unfinished_and_queued_inputs() {
    let mut router = MessageRouter::new();
    let mut queued = Vec::new();
    let mut results = Vec::new();
    let mut channels: Vec<Vec<ExecutionEngineResultItem<&str>>> = Vec::new();
    for input_id in 0..4u32 {
        results.push(ExecutionEngineResult { generation: 0, error: None });
        channels.push(vec![]);
        let sender = input_id as usize;
        if input_id == 3 {
            queued.push(EnqueueInputMessage { input_id, sources: vec![], result_sender: sender });
        } else {
            router.insert_output_sender(input_id, sender);
        }
    }
    // The first input has finished, the second has part of its output, the third has none, and
    // the fourth waits to be taken.
    assert!(matches!(
        router.route_message::<&str>(PipelineMessage::Flush(0)),
        Routed::Dropped
    ));
    let morsel = PipelineMessage::Morsel { input_id: 1, partition: "rows" };
    match router.route_message(morsel) {
        Routed::Deliver { index, item } => channels[router.open[index].sender].push(item),
        Routed::Dropped => unreachable!(),
    }

    let mut failure = None;
    let finished = finish_input_streams(
        router,
        queued,
        Err(DaftError::SocketError(GenericError {
            message: "connection reset".to_string(),
            errnos: vec![],
        })),
        &mut failure,
    );
    let Err(DaftError::Shared(error)) = finished.result else {
        panic!("expected the shared pipeline error");
    };
    assert!(Arc::ptr_eq(failure.as_ref().unwrap(), &error));
    for delivery in finished.deliveries {
        channels[delivery.to].push(ExecutionEngineResultItem::Error(delivery.error));
    }
    // An input that comes afterwards gets the same error.
    let mut rejected = ExecutionEngineResult::enqueue(false, &failure, 4);
    assert!(rejected.next::<&str>(None).is_none());
    assert!(Arc::ptr_eq(rejected.error.as_ref().unwrap(), &error));
    let mut streams: Vec<_> = channels.into_iter().map(|items| items.into_iter()).collect();
    assert!(results[0].next(streams[0].next()).is_none());
    assert!(results[0].error.is_none());
    assert!(matches!(
        results[1].next(streams[1].next()),
        Some(ExecutionEngineResultItem::Partition("rows"))
    ));
    for input in 1..4 {
        assert!(results[input].next(streams[input].next()).is_none());
        let received = results[input].error.as_ref().expect("must retain the input error");
        assert!(Arc::ptr_eq(received, &error));
        assert!(received.is_transient());
    }
}

#[test]
fn inputs_share_a_pipeline_until_the_last_is_finished() {
    let mut numbers = AutoNumbers::new();
    let mut executor = NativeExecutor::new(true);
    let one = start(&mut executor, &mut numbers, 5, 0, false, "pipeline");
    let same = start(&mut executor, &mut numbers, 5, 1, false, "unused");
    assert_eq!(one, same);
    assert_eq!(executor.active_plan_count(), 1);
    assert!(matches!(executor.try_finish(5, 0, one, false), FinishedInput::Kept));
    assert!(matches!(executor.try_finish(5, 0, one + 1, false), FinishedInput::Gone));
    assert!(matches!(executor.try_finish(5, 1, one, false), FinishedInput::Removed(_)));
    start(&mut executor, &mut numbers, 5, 2, false, "a");
    start(&mut executor, &mut numbers, 6, 3, false, "b");
    executor.cancel_plan(5);
    assert_eq!(executor.active_plan_count(), 1);
    assert_eq!(executor.plans[0].handle, "b");
}

#[test]
fn executors_of_a_process_never_share_a_generation() {
    let mut numbers = AutoNumbers::new();
    let mut one = NativeExecutor::new(true);
    let mut other = NativeExecutor::new(false);
    assert_eq!(start(&mut one, &mut numbers, 5, 0, false, "a"), 1);
    assert_eq!(start(&mut other, &mut numbers, 5, 0, false, "b"), 2);
    assert_eq!(parse_context(&vec![], &mut numbers).fingerprint, 3);
    assert_eq!(start(&mut one, &mut numbers, 6, 0, false, "c"), 4);
    assert_eq!(one.active_plan_count(), 2);
}

#[test]
fn enqueueing_to_a_dead_pipeline_is_an_error() {
    let result = ExecutionEngineResult::enqueue(false, &None, 3);
    assert_eq!(result.generation(), 3);
    let error = result.finish(Ok(())).unwrap_err();
    assert!(error.to_text().contains("Plan execution task has died; cannot enqueue new input"));
    assert_eq!(ExecutionEngineResult::enqueue(true, &None, 3).finish(Ok(7)).unwrap(), 7);
}

fn reference(partition_ref_id: u64) -> FlightPartitionRef {
    FlightPartitionRef {
        shuffle_id: 1,
        server_address: "s".to_string(),
        partition_ref_id,
        attempt: 2,
        num_rows: 0,
        size_bytes: 0,
    }
}

#[test]
fn outputs_are_collected_up_to_a_failure() {
    let result = || ExecutionEngineResult { generation: 0, error: None };
    let items = || {
        vec![
            ExecutionEngineResultItem::Partition('a'),
            ExecutionEngineResultItem::FlightPartitionRef(reference(9)),
            ExecutionEngineResultItem::Partition('b'),
        ]
    };
    let (partitions, refs) = result().collect_outputs_for_testing(items()).unwrap();
    assert_eq!(partitions, vec!['a', 'b']);
    assert_eq!(refs[0].partition_ref_id, 9);
    assert_eq!(result().collect_partitions_for_testing(items()), vec!['a', 'b']);
    let mut broken = items();
    let error = Arc::new(DaftError::ValueError("broken".to_string()));
    broken.insert(1, ExecutionEngineResultItem::Error(error.clone()));
    let Err(DaftError::Shared(seen)) = result().collect_outputs_for_testing(broken) else {
        unreachable!()
    };
    assert!(Arc::ptr_eq(&seen, &error));
}

#[test]
fn the_loop_ends_as_its_pipeline_does() {
    let mut run: ExecutionLoop<char> = ExecutionLoop::new();
    let message = EnqueueInputMessage { input_id: 4, sources: vec![1, 2], result_sender: 'x' };
    assert!(matches!(
        run.run_execution_loop::<u8>(LoopEvent::Enqueued(Some(message))),
        LoopAction::Feed { input_id: 4, sources } if sources == vec![1, 2]
    ));
    let output = PipelineMessage::FlightPartitionRef { input_id: 4, partition_ref: reference(8) };
    match run.run_execution_loop::<u8>(LoopEvent::Output(Some(output))) {
        LoopAction::Deliver { index, .. } => assert_eq!(run.router.open[index].sender, 'x'),
        _ => unreachable!(),
    }
    let stray = PipelineMessage::Morsel { input_id: 5, partition: 1u8 };
    assert!(matches!(
        run.run_execution_loop(LoopEvent::Output(Some(stray))),
        LoopAction::Continue
    ));
    assert!(matches!(
        run.run_execution_loop::<u8>(LoopEvent::Enqueued(None)),
        LoopAction::CloseSources
    ));
    assert!(run.input_exhausted);
    assert!(matches!(
        run.run_execution_loop::<u8>(LoopEvent::Output(None)),
        LoopAction::ShutDown
    ));
    let end = |event| match ExecutionLoop::<char>::new().run_execution_loop::<u8>(event) {
        LoopAction::End(end) => (end.result.is_ok(), end.status),
        _ => unreachable!(),
    };
    let broken = || Err(DaftError::ValueError("broken".to_string()));
    assert_eq!(end(LoopEvent::ShutDown(Ok(()))), (true, QueryEndState::Finished));
    assert_eq!(end(LoopEvent::ShutDown(broken())), (false, QueryEndState::Failed));
    assert_eq!(end(LoopEvent::Cancelled), (true, QueryEndState::Canceled));
    assert_eq!(end(LoopEvent::Interrupted), (true, QueryEndState::Canceled));
    let ended = LoopEvent::TaskEnded { result: broken(), was_cancelled: true };
    assert_eq!(end(ended), (true, QueryEndState::Canceled));
    let ended = LoopEvent::TaskEnded { result: broken(), was_cancelled: false };
    assert_eq!(end(ended), (false, QueryEndState::Failed));
}

#[test]
fn contexts_name_their_query_and_plan() {
    let entry = |key: &str, value: &str| ContextEntry {
        key: key.to_string(),
        value: value.to_string(),
    };
    let mut numbers = AutoNumbers { next: 40 };
    assert_eq!(next_auto_fingerprint(&mut numbers), 40);
    let plan = parse_context(&vec![], &mut numbers);
    assert_eq!((plan.query_id.as_str(), plan.fingerprint, plan.task_id), ("", 41, None));
    let context = vec![
        entry("query_id", "q"),
        entry("plan_fingerprint", "4294967303"),
        entry("task_id", "6"),
        entry("shuffle_reconstruction_node", "8"),
        entry("shuffle_reconstruction_of", "5"),
    ];
    assert_eq!(context_value(&context, "query_id"), Some("q"));
    assert_eq!(context_value(&context, "query"), None);
    let plan = parse_context(&context, &mut numbers);
    assert_eq!((plan.query_id.as_str(), plan.fingerprint, plan.task_id), ("q", 4294967303, Some(6)));
    assert_eq!(numbers.next, 42);
    let task = task_start(true, true, &plan, &context).unwrap();
    assert_eq!((task.task_id, task.last_node_id, task.plan_fingerprint), (6, 8, 7));
    assert_eq!(task.name.as_deref(), Some("Shuffle reconstruction of task 5"));
    assert!(task_start(false, true, &plan, &context).is_none());
    assert!(task_start(true, false, &plan, &context).is_none());
    assert!(task_events_enabled(Some(" TRUE ")) && task_events_enabled(Some("1")));
    assert!(!task_events_enabled(Some("0")));
}
