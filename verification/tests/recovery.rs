use std::collections::HashMap;
use std::sync::Arc;

use daft_flotilla::backend::{LocalShuffleBackend, SharedShuffleSpec};
use daft_flotilla::error::{DaftError, ShuffleFetchFailure};
use daft_flotilla::flight::{
    read_inputs_from_refs, FlightMapOutput, FlightPartitionRef, FlightShuffleReadInput,
    PartitionRef, ServerInputs,
};
use daft_flotilla::recovery::{
    first_outcome, output_location, recovered, FirstStep, Location, OutputKey, RecoveryEnd,
    RecoveryRun, RepairStart, RunStep, ShuffleRecovery, DEFAULT_RECOVERY_ATTEMPTS,
    MAX_CONSUMER_FAILURES, MAX_RECOVERY_DEPTH, RECOVERY_SLOTS,
};
use daft_flotilla::replay::{
    plan_replayable, producer_spec, pure_expr, safe_agg, task_replayable, AggExpr, AggKind,
    DataType, Expr, ExprKind, Input, LocalPhysicalPlan, PlanOp, RepartitionSpec, SwordfishTask,
    TaskInput,
};
use daft_flotilla::task::TaskContext;

type Outcome = Result<Option<Vec<PartitionRef>>, DaftError>;

fn column() -> Expr {
    Expr { kind: ExprKind::Column, dtype: Some(DataType::Int64), children: vec![] }
}

fn plan(op: PlanOp, children: Vec<LocalPhysicalPlan>) -> LocalPhysicalPlan {
    LocalPhysicalPlan { schema: vec![DataType::Int64], op, children }
}

fn repartition(
    child: LocalPhysicalPlan,
    shuffle_id: u64,
    durability: &str,
    spec: RepartitionSpec,
) -> LocalPhysicalPlan {
    let backend = LocalShuffleBackend::Flight {
        shuffle_id,
        shuffle_dirs: vec![],
        compression: None,
        shared: Some(SharedShuffleSpec {
            root: "/shared".to_string(),
            durability: durability.to_string(),
        }),
    };
    plan(PlanOp::RepartitionWrite { num_partitions: 3, backend, spec }, vec![child])
}

fn by_hash() -> RepartitionSpec {
    RepartitionSpec::Hash { by: vec![column()] }
}

fn key(shuffle_id: u64, output: FlightMapOutput) -> OutputKey {
    OutputKey { shuffle_id, input_id: output.input_id, attempt: output.attempt }
}

/// A worker with shared files, and the recovery of what is lost of them. Partitions in memory
/// are runs of numbers: as many as they have rows, from their size on.
struct Cluster {
    recovery: ShuffleRecovery,
    files: HashMap<(u64, u32, u64), Vec<Vec<i64>>>,
    read: Vec<i64>,
    shuffle_id: u64,
    tasks: u32,
    attempts: u64,
}

impl Cluster {
    fn new() -> Cluster {
        Cluster {
            recovery: ShuffleRecovery::new(None),
            files: HashMap::new(),
            read: vec![],
            shuffle_id: 77,
            tasks: 0,
            attempts: 1000,
        }
    }

    fn next_context(&mut self) -> TaskContext {
        self.tasks += 1;
        TaskContext { query_idx: 0, last_node_id: 0, task_id: self.tasks }
    }

    fn task(&mut self, plan: LocalPhysicalPlan, input: Input) -> SwordfishTask {
        SwordfishTask {
            context: self.next_context(),
            plan: Arc::new(plan),
            inputs: Arc::new(vec![TaskInput { node_id: 0, input }]),
        }
    }

    fn renumbered(&mut self, task: &SwordfishTask) -> SwordfishTask {
        SwordfishTask { context: self.next_context(), ..task.clone() }
    }

    fn producer(&mut self, start: usize, durability: &str, random: bool) -> SwordfishTask {
        let spec = if random { RepartitionSpec::Random } else { by_hash() };
        let scan = plan(PlanOp::InMemoryScan, vec![]);
        let numbers = PartitionRef::InMemory { num_rows: 90, size_bytes: start };
        let write = repartition(scan, self.shuffle_id, durability, spec);
        self.task(write, Input::InMemory(Arc::new(vec![numbers])))
    }

    fn reads(&self, outputs: &[&Vec<PartitionRef>], partition_idx: u32) -> Input {
        let mut servers: Vec<ServerInputs> = vec![];
        for refs in outputs {
            let location = output_location(refs, self.shuffle_id, 3).unwrap();
            match servers.iter_mut().find(|s| s.server == location.server) {
                Some(server) => server.outputs.push(location.output),
                None => servers.push(ServerInputs {
                    server: location.server,
                    outputs: vec![location.output],
                }),
            }
        }
        Input::FlightShuffle(Arc::new(vec![FlightShuffleReadInput {
            shuffle_id: self.shuffle_id,
            partition_idx,
            coalesce_ranges: false,
            inputs_by_server: Arc::new(servers),
            shared_root: Some(Arc::new("/shared".to_string())),
        }]))
    }

    fn consumer(&mut self, outputs: &[&Vec<PartitionRef>], partition_idx: u32) -> SwordfishTask {
        let input = self.reads(outputs, partition_idx);
        self.task(plan(PlanOp::ShuffleRead, vec![]), input)
    }

    /// Runs a task on the worker.
    fn run(&mut self, task: &SwordfishTask) -> Outcome {
        let mut values: Vec<i64> = vec![];
        for input in task.inputs.iter() {
            match &input.input {
                Input::InMemory(parts) => {
                    for part in parts.iter() {
                        if let PartitionRef::InMemory { num_rows, size_bytes } = part {
                            values.extend(*size_bytes as i64..(size_bytes + num_rows) as i64);
                        }
                    }
                }
                Input::FlightShuffle(reads) => {
                    for read in reads.iter() {
                        for map in read.inputs_by_server.iter().flat_map(|s| s.outputs.iter()) {
                            let name = (read.shuffle_id, map.input_id, map.attempt);
                            match self.files.get(&name) {
                                Some(file) => {
                                    values.extend(&file[read.partition_idx as usize]);
                                }
                                None => {
                                    let failure = self.failure(read.shuffle_id, *map);
                                    return Err(DaftError::ShuffleFetchFailure(Box::new(failure)));
                                }
                            }
                        }
                    }
                }
                _ => unreachable!(),
            }
        }
        let PlanOp::RepartitionWrite { num_partitions, backend, .. } = &task.plan.op else {
            self.read.extend(&values);
            return Ok(Some(vec![PartitionRef::InMemory {
                num_rows: values.len(),
                size_bytes: 0,
            }]));
        };
        let LocalShuffleBackend::Flight { shuffle_id, .. } = backend else { unreachable!() };
        self.attempts += 1;
        let mut file = vec![vec![]; *num_partitions];
        for value in values {
            file[value as usize % num_partitions].push(value);
        }
        let refs = (0..*num_partitions)
            .map(|idx| {
                PartitionRef::Flight(FlightPartitionRef {
                    shuffle_id: *shuffle_id,
                    server_address: "worker".to_string(),
                    partition_ref_id: ((task.context.task_id as u64) << 32) | idx as u64,
                    attempt: self.attempts,
                    num_rows: file[idx].len(),
                    size_bytes: 8 * file[idx].len(),
                })
            })
            .collect();
        self.files.insert((*shuffle_id, task.context.task_id, self.attempts), file);
        Ok(Some(refs))
    }

    /// Runs a task until its inputs are there.
    fn run_again(
        &mut self,
        task: &SwordfishTask,
        ancestors: Vec<OutputKey>,
        reconstruction: bool,
    ) -> Outcome {
        let mut run = RecoveryRun::new();
        let mut task = self.renumbered(task);
        loop {
            task = self.recovery.bind(&task);
            if reconstruction {
                assert!(self.recovery.acquire_slot());
            }
            let outcome = self.run(&task);
            if reconstruction {
                self.recovery.release_slot();
            }
            match run.run(outcome) {
                RunStep::Return(result) => return result,
                RunStep::Repair(failure) => {
                    self.repair(&failure, ancestors.clone())?;
                    task = self.renumbered(&task);
                }
            }
        }
    }

    fn repair(
        &mut self,
        failure: &ShuffleFetchFailure,
        ancestors: Vec<OutputKey>,
    ) -> Result<(), DaftError> {
        match self.recovery.begin_repair(failure, &ancestors) {
            RepairStart::Refused(error) => Err(error),
            RepairStart::Replaced => Ok(()),
            RepairStart::Wait(_) => unreachable!(),
            RepairStart::Reconstruct { producer, ancestors } => {
                let template = self.recovery.producers[producer].template.clone();
                let outcome = self.run_again(&template, ancestors, true);
                self.recovery.finish_repair(failure, producer, outcome)
            }
        }
    }

    fn first_attempt(&mut self, task: &SwordfishTask) -> FirstStep {
        let submitted = self.recovery.submit::<u32>(task, vec![]);
        assert!(submitted.recovered);
        first_outcome(self.run(&submitted.first))
    }

    fn after_first(&mut self, task: &SwordfishTask, step: FirstStep) -> Outcome {
        let result = match step {
            FirstStep::Return(result) => result,
            FirstStep::Recover(failure) => {
                let end = match self.repair(&failure, vec![]) {
                    Err(error) => Err(error),
                    Ok(()) => self.run_again(task, vec![], false),
                };
                recovered(&failure, RecoveryEnd::Finished(end))
            }
        };
        self.recovery.complete(task, result)
    }

    fn execute(&mut self, task: &SwordfishTask) -> Result<Vec<PartitionRef>, DaftError> {
        let submitted = self.recovery.submit::<u32>(task, vec![]);
        let outcome = self.run(&submitted.first);
        if !submitted.recovered {
            return Ok(outcome?.unwrap());
        }
        Ok(self.after_first(task, first_outcome(outcome))?.unwrap())
    }

    fn failure(&self, shuffle_id: u64, output: FlightMapOutput) -> ShuffleFetchFailure {
        ShuffleFetchFailure {
            shuffle_id,
            input_id: output.input_id,
            attempt: output.attempt,
            partition_idx: 0,
            path: "/shared/file".to_string(),
            message: "injected deletion".to_string(),
        }
    }

    fn remove(&mut self, output: FlightMapOutput) -> ShuffleFetchFailure {
        self.files.remove(&(self.shuffle_id, output.input_id, output.attempt)).unwrap();
        self.failure(self.shuffle_id, output)
    }

    fn location(&self, refs: &Vec<PartitionRef>) -> Location {
        output_location(refs, self.shuffle_id, 3).unwrap()
    }

    fn producer_of(&self, output: FlightMapOutput) -> usize {
        self.recovery.lookup(key(self.shuffle_id, output)).unwrap()
    }

    fn sorted_read(&mut self) -> Vec<i64> {
        let mut read = std::mem::take(&mut self.read);
        read.sort_unstable();
        read
    }
}

#[test]
fn reconstructs_once_and_restarts_consumers_without_duplicate_rows() {
    for durability in ["none", "background", "sync"] {
        let mut cluster = Cluster::new();
        let task = cluster.producer(0, durability, false);
        let first = cluster.execute(&task).unwrap();
        let task = cluster.producer(90, durability, false);
        let second = cluster.execute(&task).unwrap();
        let old = cluster.location(&second);
        let failure = cluster.remove(old.output);
        let consumers: Vec<_> = (0..3).map(|p| cluster.consumer(&[&first, &second], p)).collect();
        // All of them miss the output before any of them has it reconstructed.
        let steps: Vec<_> = consumers.iter().map(|c| cluster.first_attempt(c)).collect();
        for (consumer, step) in consumers.iter().zip(steps) {
            assert!(cluster.after_first(consumer, step).unwrap().is_some());
        }
        assert_eq!(cluster.sorted_read(), (0..180).collect::<Vec<_>>());
        let producer = cluster.producer_of(old.output);
        assert_eq!(cluster.recovery.producers[producer].attempts, 1);
        assert_ne!(cluster.recovery.producers[producer].selected.output, old.output);
        // A late report of the lost output does not harm the new one.
        cluster.repair(&failure, vec![]).unwrap();
        assert_eq!(cluster.recovery.producers[producer].attempts, 1);
    }
}

#[test]
fn repeated_deletion_exhausts_one_shared_producer_budget() {
    let mut cluster = Cluster::new();
    let task = cluster.producer(0, "none", false);
    let written = cluster.execute(&task).unwrap();
    let old = cluster.location(&written);
    let producer = cluster.producer_of(old.output);
    for _ in 0..2 {
        cluster.remove(cluster.recovery.producers[producer].selected.output);
        let consumer = cluster.consumer(&[&written], 0);
        cluster.execute(&consumer).unwrap();
    }
    cluster.remove(cluster.recovery.producers[producer].selected.output);
    let consumer = cluster.consumer(&[&written], 0);
    let error = cluster.execute(&consumer).unwrap_err().to_text();
    assert!(error.contains("budget exhausted"), "{error}");
    assert_eq!(cluster.recovery.producers[producer].attempts, 2);
}

#[test]
fn cancellation_releases_repair_and_notifies_once() {
    let mut cluster = Cluster::new();
    let task = cluster.producer(0, "none", false);
    let written = cluster.execute(&task).unwrap();
    let old = cluster.location(&written);
    cluster.remove(old.output);
    let producer = cluster.producer_of(old.output);
    for _ in 0..4 {
        assert!(cluster.recovery.acquire_slot());
    }
    let consumer = cluster.consumer(&[&written], 0);
    let task_id = consumer.context.task_id;
    let submitted = cluster.recovery.submit(&consumer, vec![task_id]);
    assert!(submitted.recovered);
    // Nobody hears of the execution that fails.
    let mut notified: Vec<u32> = submitted.with_first;
    let outcome = cluster.run(&submitted.first);
    let FirstStep::Recover(failure) = first_outcome(outcome) else { unreachable!() };
    assert!(notified.is_empty());
    assert!(matches!(
        cluster.recovery.begin_repair(&failure, &vec![]),
        RepairStart::Reconstruct { producer: p, .. } if p == producer
    ));
    assert!(!cluster.recovery.acquire_slot());
    assert!(matches!(
        cluster.recovery.begin_repair(&failure, &vec![]),
        RepairStart::Wait(p) if p == producer
    ));
    cluster.recovery.abandon_repair(producer);
    let result = recovered(&failure, RecoveryEnd::Cancelled);
    assert!(cluster.recovery.complete(&consumer, result).unwrap().is_none());
    notified.extend(submitted.at_the_end);
    assert_eq!(notified, vec![task_id]);
    assert_eq!(cluster.recovery.producers[producer].selected.output, old.output);
    for _ in 0..4 {
        cluster.recovery.release_slot();
    }
    // Another consumer can still have it reconstructed.
    let consumer = cluster.consumer(&[&written], 0);
    cluster.execute(&consumer).unwrap();
    assert_eq!(cluster.recovery.producers[producer].attempts, 2);
}

#[test]
fn reconstructs_missing_dependency_before_descendant() {
    let mut cluster = Cluster::new();
    let task = cluster.producer(0, "none", false);
    let upstream = cluster.execute(&task).unwrap();
    let old = cluster.location(&upstream);
    let read = cluster.consumer(&[&upstream], 0);
    cluster.execute(&read).unwrap();
    let expected = cluster.sorted_read();
    let input = cluster.reads(&[&upstream], 0);
    cluster.shuffle_id = 78;
    let write = repartition(plan(PlanOp::ShuffleRead, vec![]), 78, "none", by_hash());
    let task = cluster.task(write, input);
    let downstream = cluster.execute(&task).unwrap();
    cluster.files.remove(&(77, old.output.input_id, old.output.attempt)).unwrap();
    let lost = cluster.location(&downstream);
    cluster.remove(lost.output);
    for p in 0..3 {
        let consumer = cluster.consumer(&[&downstream], p);
        cluster.execute(&consumer).unwrap();
    }
    assert_eq!(cluster.sorted_read(), expected);
    assert_eq!(cluster.recovery.aliases.len(), 4);
}

#[test]
fn random_partition_output_is_not_reconstructed() {
    let mut cluster = Cluster::new();
    let task = cluster.producer(0, "none", true);
    assert!(producer_spec(&task).is_none());
    let result = cluster.execute(&task).unwrap();
    let lost = cluster.location(&result);
    cluster.remove(lost.output);
    let consumer = cluster.consumer(&[&result], 0);
    let error = cluster.execute(&consumer).unwrap_err().to_text();
    assert!(error.contains("not replayable"), "{error}");
    assert!(cluster.recovery.aliases.is_empty());
}

fn lost(n: u64) -> ShuffleFetchFailure {
    ShuffleFetchFailure {
        shuffle_id: n,
        input_id: 1,
        attempt: 2,
        partition_idx: 3,
        path: "/p".to_string(),
        message: "gone".to_string(),
    }
}

fn refused(start: RepairStart) -> String {
    match start {
        RepairStart::Refused(DaftError::ComputeError(text)) => text,
        _ => unreachable!(),
    }
}

#[test]
fn outputs_do_not_depend_on_themselves() {
    assert_eq!((RECOVERY_SLOTS, MAX_RECOVERY_DEPTH), (4, 16));
    let mut recovery = ShuffleRecovery::new(None);
    assert_eq!(recovery.max_attempts, DEFAULT_RECOVERY_ATTEMPTS);
    let itself = OutputKey { shuffle_id: 5, input_id: 1, attempt: 2 };
    let text = refused(recovery.begin_repair(&lost(5), &vec![itself]));
    assert!(text.starts_with("Cannot recover shared shuffle output: "), "{text}");
    assert!(text.ends_with("; cyclic or excessive reconstruction dependencies"), "{text}");
    let deep: Vec<OutputKey> =
        (0..16).map(|n| OutputKey { shuffle_id: n, input_id: 0, attempt: 0 }).collect();
    let text = refused(recovery.begin_repair(&lost(99), &deep));
    assert!(text.ends_with("; cyclic or excessive reconstruction dependencies"), "{text}");
    let text = refused(recovery.begin_repair(&lost(99), &vec![]));
    assert!(
        text.ends_with(
            "; producer is not replayable from retained inputs; automatic stage rollback is not \
             supported"
        ),
        "{text}"
    );
}

#[test]
fn consumers_give_up_after_many_losses() {
    let mut run = RecoveryRun::new();
    assert!(run.begin_attempt::<()>(false).is_none());
    assert!(matches!(run.begin_attempt::<()>(true), Some(RunStep::Return(Ok(None)))));
    let miss = || Err::<Option<()>, _>(DaftError::ShuffleFetchFailure(Box::new(lost(1))));
    for _ in 0..MAX_CONSUMER_FAILURES {
        assert!(matches!(run.run(miss()), RunStep::Repair(failure) if failure.shuffle_id == 1));
    }
    let RunStep::Return(Err(error)) = run.run(miss()) else { unreachable!() };
    assert!(error.to_text().ends_with("; consumer recovery budget exhausted"));
    assert!(matches!(
        RecoveryRun::new().run::<()>(Err(DaftError::ValueError("other".to_string()))),
        RunStep::Return(Err(DaftError::ValueError(text))) if text == "other"
    ));
    let late = recovered(&lost(1), RecoveryEnd::DeadlineExceeded).unwrap_err();
    assert!(late.to_text().ends_with("; recovery deadline exceeded"));
}

#[test]
fn failed_reconstructions_are_final() {
    let mut cluster = Cluster::new();
    let task = cluster.producer(0, "none", false);
    let output = cluster.execute(&task).unwrap();
    let old = cluster.location(&output).output;
    let failure = cluster.remove(old);
    let p = cluster.producer_of(old);
    let start = cluster.recovery.begin_repair(&failure, &vec![]);
    assert!(matches!(start, RepairStart::Reconstruct { .. }));
    let cancelled = cluster.recovery.finish_repair(&failure, p, Ok(None)).unwrap_err();
    assert!(cancelled.to_text().ends_with("; reconstruction cancelled"));
    let start = cluster.recovery.begin_repair(&failure, &vec![]);
    assert!(matches!(start, RepairStart::Reconstruct { .. }));
    let broken = Err(DaftError::ValueError("broken".to_string()));
    assert!(cluster.recovery.finish_repair(&failure, p, broken).is_err());
    let text = refused(cluster.recovery.begin_repair(&failure, &vec![]));
    assert!(text.ends_with("; DaftError::ValueError broken"), "{text}");
}

#[test]
fn outputs_must_be_whole() {
    let part = |idx: u64, attempt| {
        PartitionRef::Flight(FlightPartitionRef {
            shuffle_id: 7,
            server_address: "s".to_string(),
            partition_ref_id: (4 << 32) | idx,
            attempt,
            num_rows: 1,
            size_bytes: 1,
        })
    };
    let text = |refs: Vec<PartitionRef>| match output_location(&refs, 7, 2) {
        Err(DaftError::InternalError(text)) => text,
        _ => unreachable!(),
    };
    let location = output_location(&vec![part(1, 9), part(0, 9)], 7, 2).unwrap();
    assert_eq!(location.output, FlightMapOutput { input_id: 4, attempt: 9 });
    assert_eq!(location.server, "s");
    assert_eq!(text(vec![]), "Shared map task returned no Flight output");
    assert_eq!(text(vec![part(0, 9), part(0, 9)]), "Inconsistent reconstructed map output");
    assert_eq!(text(vec![part(0, 9), part(1, 8)]), "Inconsistent reconstructed map output");
    assert_eq!(text(vec![part(1, 9)]), "Incomplete reconstructed map output");
}

#[test]
fn consumers_are_bound_to_the_server_that_has_the_output() {
    let mut cluster = Cluster::new();
    let task = cluster.producer(0, "none", false);
    let output = cluster.execute(&task).unwrap();
    let old = cluster.location(&output).output;
    let failure = cluster.remove(old);
    let consumer = cluster.consumer(&[&output], 1);
    let p = cluster.producer_of(old);
    cluster.recovery.begin_repair(&failure, &vec![]);
    let moved: Vec<PartitionRef> = (0..3u64)
        .map(|idx| {
            PartitionRef::Flight(FlightPartitionRef {
                shuffle_id: 77,
                server_address: "elsewhere".to_string(),
                partition_ref_id: (50 << 32) | idx,
                attempt: 3,
                num_rows: 0,
                size_bytes: 0,
            })
        })
        .collect();
    cluster.recovery.finish_repair(&failure, p, Ok(Some(moved))).unwrap();
    // A consumer that is not repeated reads the replacement too, from the first.
    let once = SwordfishTask {
        context: consumer.context,
        plan: Arc::new(plan(PlanOp::Other, vec![])),
        inputs: consumer.inputs.clone(),
    };
    let submitted = cluster.recovery.submit(&once, vec![1]);
    assert!(!submitted.recovered);
    assert_eq!(submitted.with_first, vec![1]);
    let bound = cluster.recovery.bind(&consumer);
    assert_eq!(
        format!("{:?}", submitted.first.inputs),
        format!("{:?}", bound.inputs)
    );
    let Input::FlightShuffle(reads) = &bound.inputs[0].input else { unreachable!() };
    assert_eq!(reads[0].inputs_by_server.len(), 1);
    assert_eq!(reads[0].inputs_by_server[0].server, "elsewhere");
    assert_eq!(
        reads[0].inputs_by_server[0].outputs,
        vec![FlightMapOutput { input_id: 50, attempt: 3 }]
    );
    assert_eq!(reads[0].partition_idx, 1);
    let refs = read_inputs_from_refs(output, None).unwrap();
    assert_eq!(refs[0].inputs_by_server[0].outputs, vec![old]);
}

#[test]
fn only_pure_plans_are_replayed() {
    let call = Expr {
        kind: ExprKind::Function,
        dtype: Some(DataType::Int64),
        children: vec![column()],
    };
    let nested = |child: Expr| Expr {
        kind: ExprKind::Not,
        dtype: Some(DataType::Boolean),
        children: vec![child],
    };
    assert!(pure_expr(&nested(column())));
    assert!(!pure_expr(&nested(call)));
    assert!(!pure_expr(&Expr { kind: ExprKind::Column, dtype: None, children: vec![] }));
    let list = Expr { kind: ExprKind::Column, dtype: Some(DataType::List), children: vec![] };
    assert!(!pure_expr(&list));
    let sum = |kind| AggExpr { kind, children: vec![column()] };
    assert!(safe_agg(&sum(AggKind::Sum)) && !safe_agg(&sum(AggKind::Other)));
    let aggregate = plan(
        PlanOp::UnGroupedAggregate { aggregations: vec![sum(AggKind::Sum)] },
        vec![plan(PlanOp::ShuffleRead, vec![])],
    );
    assert!(plan_replayable(&aggregate, false));
    assert!(!plan_replayable(&aggregate, true));
    let mut cluster = Cluster::new();
    let scan = cluster.task(plan(PlanOp::InMemoryScan, vec![]), Input::ScanTasks);
    assert!(!task_replayable(&scan, false));
    let task = cluster.producer(0, "none", false);
    assert_eq!(producer_spec(&task), Some((77, 3)));
}

#[test]
fn without_attempts_nothing_is_recovered() {
    let mut cluster = Cluster::new();
    cluster.recovery = ShuffleRecovery::new(Some("0"));
    let task = cluster.producer(0, "none", false);
    let submitted = cluster.recovery.submit(&task, vec!['n']);
    assert!(!submitted.recovered);
    assert_eq!(submitted.with_first, vec!['n']);
    assert!(submitted.at_the_end.is_empty());
}
