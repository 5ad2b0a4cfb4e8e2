//! Running plans on one node: which pipeline an input joins, where results go, and how failures
//! reach every input.
use std::collections::HashSet;
use std::sync::Arc;

use vstd::prelude::*;

use crate::error::{shared_error, DaftError};
use crate::flight::FlightPartitionRef;
use crate::sort::reversed;
use crate::text::{
    owned, parse, parsed, reads_true, trimmed_end, trimmed_reads_true, trimmed_start,
};

verus! {

broadcast use vstd::std_specs::hash::group_hash_axioms;

/// The number of an input.
pub type InputId = u32;

/// One entry of the context that comes with a plan.
#[derive(Debug)]
pub struct ContextEntry {
    pub key: String,
    pub value: String,
}

/// What a key stands for; the last entry counts.
pub open spec fn value_of(context: Seq<ContextEntry>, key: Seq<char>) -> Option<Seq<char>>
    decreases context.len(),
{
    if context.len() == 0 {
        None
    } else if context.last().key@ == key {
        Some(context.last().value@)
    } else {
        value_of(context.drop_last(), key)
    }
}

/// What a key stands for.
pub fn context_value<'a>(context: &'a Vec<ContextEntry>, key: &str) -> (r: Option<&'a str>)
    ensures
        match r {
            Some(value) => value_of(context@, key@) == Some(value@),
            None => value_of(context@, key@) is None,
        },
{
    let wanted: String = owned(key);
    let mut n: usize = context.len();
    assert(context@.take(n as int) =~= context@);
    while n > 0
        invariant
            n <= context@.len(),
            wanted@ == key@,
            value_of(context@, key@) == value_of(context@.take(n as int), key@),
        decreases n,
    {
        assert(context@.take(n as int).drop_last() =~= context@.take(n - 1));
        assert(context@.take(n as int).last() == context@[n - 1]);
        if context[n - 1].key == wanted {
            return Some(context[n - 1].value.as_str());
        }
        n = n - 1;
    }
    None
}

/// Where the numbers of a process come from. All its executors share one.
#[derive(Debug)]
pub struct AutoNumbers {
    /// The number that comes next.
    pub next: u64,
}

impl AutoNumbers {
    /// No number is given yet.
    pub fn new() -> (n: AutoNumbers)
        ensures
            n.next == 1,
    {
        AutoNumbers { next: 1 }
    }
}

/// A number that no earlier call has given, as long as they do not run out.
pub fn next_auto_fingerprint(numbers: &mut AutoNumbers) -> (n: u64)
    ensures
        n == old(numbers).next,
        final(numbers).next == old(numbers).next.wrapping_add(1),
{
    let n: u64 = numbers.next;
    numbers.next = n.wrapping_add(1);
    n
}

/// What a plan's context says of it.
#[derive(Debug)]
pub struct PlanContext {
    pub query_id: String,
    pub fingerprint: u64,
    pub task_id: Option<u32>,
}

/// The number that a key stands for, if it stands for one.
pub open spec fn number_of(context: Seq<ContextEntry>, key: Seq<char>, max: nat) -> Option<nat> {
    match value_of(context, key) {
        Some(text) => parsed(text, max),
        None => None,
    }
}

fn context_number(context: &Vec<ContextEntry>, key: &str, max: u64) -> (r: Option<u64>)
    ensures
        match number_of(context@, key@, max as nat) {
            Some(n) => r == Some(n as u64),
            None => r is None,
        },
{
    match context_value(context, key) {
        Some(text) => parse(text, max),
        None => None,
    }
}

/// Reads a plan's context. A plan that says no fingerprint gets one of its own: it must not
/// join a pipeline that was built for another plan.
pub fn parse_context(context: &Vec<ContextEntry>, numbers: &mut AutoNumbers) -> (r: PlanContext)
    ensures
        r.query_id@ == (match value_of(context@, "query_id"@) {
            Some(text) => text,
            None => Seq::empty(),
        }),
        match number_of(context@, "plan_fingerprint"@, u64::MAX as nat) {
            Some(n) => r.fingerprint == n && *final(numbers) == *old(numbers),
            None => r.fingerprint == old(numbers).next && final(numbers).next == old(
                numbers,
            ).next.wrapping_add(1),
        },
        match number_of(context@, "task_id"@, u32::MAX as nat) {
            Some(n) => r.task_id == Some(n as u32),
            None => r.task_id is None,
        },
{
    let query_id: String = match context_value(context, "query_id") {
        Some(text) => owned(text),
        None => String::new(),
    };
    let fingerprint: u64 = match context_number(context, "plan_fingerprint", u64::MAX) {
        Some(n) => n,
        None => next_auto_fingerprint(numbers),
    };
    let task_id: Option<u32> = match context_number(context, "task_id", u32::MAX as u64) {
        Some(n) => Some(n as u32),
        None => None,
    };
    PlanContext { query_id, fingerprint, task_id }
}

/// Whether the start of tasks is reported. It is not, unless a setting says so.
pub fn task_events_enabled(setting: Option<&str>) -> (b: bool)
    ensures
        b == (match setting {
            Some(text) => reads_true(trimmed_end(trimmed_start(text@))),
            None => false,
        }),
{
    match setting {
        Some(text) => trimmed_reads_true(text),
        None => false,
    }
}

/// What is reported when a task starts.
#[derive(Debug)]
pub struct TaskStart {
    pub task_id: u32,
    pub last_node_id: u32,
    pub plan_fingerprint: u32,
    pub name: Option<String>,
}

/// What is reported when a task starts, if it is reported: on workers of a cluster, where that
/// is switched on, of a task that has a number.
pub fn task_start(
    is_flotilla_worker: bool,
    enabled: bool,
    plan: &PlanContext,
    context: &Vec<ContextEntry>,
) -> (r: Option<TaskStart>)
    ensures
        is_flotilla_worker && enabled && plan.task_id is Some ==> {
            &&& r is Some
            &&& r->0.task_id == plan.task_id->0
            &&& r->0.last_node_id == (match number_of(
                context@,
                "shuffle_reconstruction_node"@,
                u32::MAX as nat,
            ) {
                Some(n) => n as u32,
                None => 0u32,
            })
            &&& r->0.plan_fingerprint == plan.fingerprint as u32
            &&& match value_of(context@, "shuffle_reconstruction_of"@) {
                Some(id) => r->0.name is Some && r->0.name->0@
                    == "Shuffle reconstruction of task "@ + id,
                None => r->0.name is None,
            }
        },
        !(is_flotilla_worker && enabled && plan.task_id is Some) ==> r is None,
{
    if !is_flotilla_worker || !enabled {
        return None;
    }
    match plan.task_id {
        None => None,
        Some(task_id) => {
            let last_node_id: u32 = match context_number(
                context,
                "shuffle_reconstruction_node",
                u32::MAX as u64,
            ) {
                Some(n) => n as u32,
                None => 0,
            };
            let name: Option<String> = match context_value(context, "shuffle_reconstruction_of") {
                Some(id) => {
                    let mut text: String = owned("Shuffle reconstruction of task ");
                    text.append(id);
                    Some(text)
                },
                None => None,
            };
            Some(
                TaskStart {
                    task_id,
                    last_node_id,
                    plan_fingerprint: plan.fingerprint as u32,
                    name,
                },
            )
        },
    }
}

/// What a pipeline gives out.
pub enum PipelineMessage<M> {
    /// No more comes of this input.
    Flush(InputId),
    Morsel { input_id: InputId, partition: M },
    FlightPartitionRef { input_id: InputId, partition_ref: FlightPartitionRef },
}

/// What the submitter of an input gets.
pub enum ExecutionEngineResultItem<M> {
    Partition(M),
    FlightPartitionRef(FlightPartitionRef),
    Error(Arc<DaftError>),
}

/// An input whose results are still to come, with where they go.
pub struct OpenInput<S> {
    pub input_id: InputId,
    pub sender: S,
}

/// Directs what a pipeline gives out to the submitter of each input.
pub struct MessageRouter<S> {
    pub open: Vec<OpenInput<S>>,
}

/// Where a message goes.
pub enum Routed<M> {
    /// The input takes no more.
    Dropped,
    /// To the open input at `index`.
    Deliver { index: usize, item: ExecutionEngineResultItem<M> },
}

/// Where the results of an input go.
pub open spec fn sender_of<S>(open: Seq<OpenInput<S>>, input_id: InputId) -> Option<S>
    decreases open.len(),
{
    if open.len() == 0 {
        None
    } else if open.last().input_id == input_id {
        Some(open.last().sender)
    } else {
        sender_of(open.drop_last(), input_id)
    }
}

/// Whether no input is open twice.
pub open spec fn distinct_inputs<S>(open: Seq<OpenInput<S>>) -> bool {
    forall|i: int, j: int|
        #![trigger open[i], open[j]]
        0 <= i < j < open.len() ==> open[i].input_id != open[j].input_id
}

proof fn lemma_sender_of<S>(open: Seq<OpenInput<S>>, input_id: InputId)
    requires
        distinct_inputs(open),
    ensures
        forall|i: int|
            0 <= i < open.len() && (#[trigger] open[i]).input_id == input_id ==> sender_of(
                open,
                input_id,
            ) == Some(open[i].sender),
        (forall|i: int| 0 <= i < open.len() ==> (#[trigger] open[i]).input_id != input_id)
            ==> sender_of(open, input_id) is None,
    decreases open.len(),
{
    if open.len() > 0 {
        let before = open.drop_last();
        let last = open.len() - 1;
        assert forall|i: int, j: int|
            #![trigger before[i], before[j]]
            0 <= i < j < before.len() implies before[i].input_id != before[j].input_id by {
            assert(open[i].input_id != open[j].input_id);
        }
        lemma_sender_of(before, input_id);
        assert(open[last] == open.last());
        assert forall|i: int|
            0 <= i < open.len() && (#[trigger] open[i]).input_id == input_id implies sender_of(
            open,
            input_id,
        ) == Some(open[i].sender) by {
            if i < last {
                assert(before[i] == open[i]);
            }
        }
        if forall|i: int| 0 <= i < open.len() ==> (#[trigger] open[i]).input_id != input_id {
            assert forall|i: int| 0 <= i < before.len() implies (#[trigger] before[i]).input_id
                != input_id by {
                assert(before[i] == open[i]);
            }
        }
    }
}

impl<S> MessageRouter<S> {
    pub open spec fn wf(&self) -> bool {
        distinct_inputs(self.open@)
    }

    /// Where the results of an input go, while it is open.
    pub open spec fn route(&self, input_id: InputId) -> Option<S> {
        sender_of(self.open@, input_id)
    }

    /// No open input.
    pub fn new() -> (r: MessageRouter<S>)
        ensures
            r.wf(),
            r.open@.len() == 0,
    {
        MessageRouter { open: Vec::new() }
    }

    fn find(&self, input_id: InputId) -> (r: Option<usize>)
        requires
            self.wf(),
        ensures
            match r {
                Some(i) => i < self.open@.len() && self.open@[i as int].input_id == input_id
                    && self.route(input_id) == Some(self.open@[i as int].sender),
                None => self.route(input_id) is None && forall|i: int|
                    0 <= i < self.open@.len() ==> (#[trigger] self.open@[i]).input_id != input_id,
            },
    {
        let mut i: usize = 0;
        while i < self.open.len()
            invariant
                i <= self.open@.len(),
                self.wf(),
                forall|k: int| 0 <= k < i ==> (#[trigger] self.open@[k]).input_id != input_id,
            decreases self.open@.len() - i,
        {
            if self.open[i].input_id == input_id {
                proof {
                    lemma_sender_of(self.open@, input_id);
                }
                return Some(i);
            }
            i = i + 1;
        }
        proof {
            lemma_sender_of(self.open@, input_id);
        }
        None
    }

    /// Opens an input.
    pub fn insert_output_sender(&mut self, input_id: InputId, sender: S)
        requires
            old(self).wf(),
        ensures
            final(self).wf(),
            forall|id: InputId| #[trigger]
                final(self).route(id) == (if id == input_id {
                    Some(sender)
                } else {
                    old(self).route(id)
                }),
    {
        let n: usize = self.open.len();
        let entry = OpenInput { input_id, sender };
        let at: usize = match self.find(input_id) {
            Some(i) => {
                self.open.set(i, entry);
                i
            },
            None => {
                self.open.push(entry);
                n
            },
        };
        proof {
            let before = old(self).open@;
            let after = self.open@;
            assert(after[at as int].input_id == input_id);
            assert forall|k: int| 0 <= k < after.len() && k != at implies #[trigger] after[k]
                == before[k] by {}
            assert forall|i: int, j: int|
                #![trigger after[i], after[j]]
                0 <= i < j < after.len() implies after[i].input_id != after[j].input_id by {
                if at < n {
                    assert(before[i].input_id != before[j].input_id);
                } else if j < n {
                    assert(before[i].input_id != before[j].input_id);
                }
            }
            assert forall|id: InputId| #[trigger] self.route(id) == (if id == input_id {
                Some(sender)
            } else {
                old(self).route(id)
            }) by {
                lemma_sender_of(before, id);
                lemma_sender_of(after, id);
                if id == input_id {
                    assert(after[at as int].input_id == id);
                } else if exists|k: int| 0 <= k < before.len() && (#[trigger] before[k]).input_id
                    == id {
                    let k = choose|k: int|
                        0 <= k < before.len() && (#[trigger] before[k]).input_id == id;
                    assert(after[k] == before[k]);
                } else {
                    assert forall|k: int| 0 <= k < after.len() implies (
                    #[trigger] after[k]).input_id != id by {
                        if k != at {
                            assert(after[k] == before[k]);
                        }
                    }
                }
            }
        }
    }

    fn close(&mut self, input_id: InputId)
        requires
            old(self).wf(),
        ensures
            final(self).wf(),
            forall|id: InputId| #[trigger]
                final(self).route(id) == (if id == input_id {
                    None
                } else {
                    old(self).route(id)
                }),
    {
        match self.find(input_id) {
            None => {},
            Some(at) => {
                self.open.remove(at);
                proof {
                    let before = old(self).open@;
                    let after = self.open@;
                    assert forall|k: int| 0 <= k < after.len() implies #[trigger] after[k]
                        == before[if k < at {
                        k
                    } else {
                        k + 1
                    }] by {}
                    assert forall|i: int, j: int|
                        #![trigger after[i], after[j]]
                        0 <= i < j < after.len() implies after[i].input_id != after[j].input_id by {
                        let x = if i < at { i } else { i + 1 };
                        let y = if j < at { j } else { j + 1 };
                        assert(before[x].input_id != before[y].input_id);
                    }
                    assert forall|id: InputId| #[trigger] self.route(id) == (if id == input_id {
                        None
                    } else {
                        old(self).route(id)
                    }) by {
                        lemma_sender_of(before, id);
                        lemma_sender_of(after, id);
                        if id == input_id {
                            assert forall|k: int| 0 <= k < after.len() implies (
                            #[trigger] after[k]).input_id != id by {
                                let x = if k < at { k } else { k + 1 };
                                assert(after[k] == before[x]);
                                if k < at {
                                    assert(before[x].input_id != before[at as int].input_id);
                                } else {
                                    assert(before[at as int].input_id != before[x].input_id);
                                }
                            }
                        } else if exists|k: int|
                            0 <= k < before.len() && (#[trigger] before[k]).input_id == id {
                            let k = choose|k: int|
                                0 <= k < before.len() && (#[trigger] before[k]).input_id == id;
                            let x = if k < at { k } else { k - 1 };
                            assert(after[x] == before[k]);
                        } else {
                            assert forall|k: int| 0 <= k < after.len() implies (
                            #[trigger] after[k]).input_id != id by {
                                let x = if k < at { k } else { k + 1 };
                                assert(after[k] == before[x]);
                            }
                        }
                    }
                }
            },
        }
    }

    /// Directs a message to its input. What comes for an input that is not open is dropped.
    pub fn route_message<M>(&mut self, msg: PipelineMessage<M>) -> (r: Routed<M>)
        requires
            old(self).wf(),
        ensures
            final(self).wf(),
            match msg {
                PipelineMessage::Flush(input_id) => {
                    &&& r is Dropped
                    &&& forall|id: InputId| #[trigger]
                        final(self).route(id) == (if id == input_id {
                            None
                        } else {
                            old(self).route(id)
                        })
                },
                PipelineMessage::Morsel { input_id, partition } => {
                    &&& *final(self) == *old(self)
                    &&& delivers(
                        *old(self),
                        input_id,
                        ExecutionEngineResultItem::Partition(partition),
                        r,
                    )
                },
                PipelineMessage::FlightPartitionRef { input_id, partition_ref } => {
                    &&& *final(self) == *old(self)
                    &&& delivers(
                        *old(self),
                        input_id,
                        ExecutionEngineResultItem::FlightPartitionRef(partition_ref),
                        r,
                    )
                },
            },
    {
        match msg {
            PipelineMessage::Flush(input_id) => {
                self.close(input_id);
                Routed::Dropped
            },
            PipelineMessage::Morsel { input_id, partition } => match self.find(input_id) {
                Some(index) => Routed::Deliver {
                    index,
                    item: ExecutionEngineResultItem::Partition(partition),
                },
                None => Routed::Dropped,
            },
            PipelineMessage::FlightPartitionRef { input_id, partition_ref } => match self.find(
                input_id,
            ) {
                Some(index) => Routed::Deliver {
                    index,
                    item: ExecutionEngineResultItem::FlightPartitionRef(partition_ref),
                },
                None => Routed::Dropped,
            },
        }
    }
}

/// Whether an item goes to its input, or nowhere, where that is not open.
pub open spec fn delivers<S, M>(
    router: MessageRouter<S>,
    input_id: InputId,
    item: ExecutionEngineResultItem<M>,
    routed: Routed<M>,
) -> bool {
    match router.route(input_id) {
        None => routed is Dropped,
        Some(sender) => {
            &&& routed is Deliver
            &&& routed->item == item
            &&& routed->index < router.open@.len()
            &&& router.open@[routed->index as int].input_id == input_id
            &&& router.open@[routed->index as int].sender == sender
        },
    }
}

/// How a query ended.
#[derive(Clone, Copy, Debug, PartialEq, Eq, Structural)]
pub enum QueryEndState {
    Finished,
    Canceled,
    Failed,
}

/// How the loop of a pipeline ends.
pub struct LoopEnd {
    pub result: Result<(), DaftError>,
    pub status: QueryEndState,
}

/// An input that is handed to a pipeline, with where its results go.
pub struct EnqueueInputMessage<S> {
    pub input_id: InputId,
    /// The sources that it feeds.
    pub sources: Vec<u32>,
    pub result_sender: S,
}

/// What happens to a running pipeline.
pub enum LoopEvent<S, M> {
    /// It is cancelled.
    Cancelled,
    /// The process is interrupted.
    Interrupted,
    /// One of its tasks has ended; whether it was cancelled, where it failed.
    TaskEnded { result: Result<(), DaftError>, was_cancelled: bool },
    /// An input arrives, or no more will.
    Enqueued(Option<EnqueueInputMessage<S>>),
    /// It gives something out, or no more will.
    Output(Option<PipelineMessage<M>>),
    /// All its tasks have been waited for.
    ShutDown(Result<(), DaftError>),
}

/// What to do next with a running pipeline.
pub enum LoopAction<M> {
    /// Wait for the next event.
    Continue,
    /// Hand the input to those of these sources that the pipeline has.
    Feed { input_id: InputId, sources: Vec<u32> },
    /// Close the sources, so that they see the end of their input.
    CloseSources,
    /// Give an item to an open input.
    Deliver { index: usize, item: ExecutionEngineResultItem<M> },
    /// Wait for all its tasks, before the results are closed: a failure has to reach every
    /// input that is still open.
    ShutDown,
    /// It is over.
    End(LoopEnd),
}

/// A running pipeline.
pub struct ExecutionLoop<S> {
    pub router: MessageRouter<S>,
    /// Whether no more inputs arrive.
    pub input_exhausted: bool,
}

impl<S> ExecutionLoop<S> {
    /// A pipeline that has just been started.
    pub fn new() -> (l: ExecutionLoop<S>)
        ensures
            l.router.wf(),
            l.router.open@.len() == 0,
            !l.input_exhausted,
    {
        ExecutionLoop { router: MessageRouter::new(), input_exhausted: false }
    }

    /// Takes an event, and says what to do next. Cancelling is no failure; neither is a task
    /// that was cancelled.
    pub fn run_execution_loop<M>(&mut self, event: LoopEvent<S, M>) -> (r: LoopAction<M>)
        requires
            old(self).router.wf(),
            event is Enqueued ==> !old(self).input_exhausted,
        ensures
            final(self).router.wf(),
            final(self).input_exhausted == (old(self).input_exhausted || event == LoopEvent::<
                S,
                M,
            >::Enqueued(None)),
            !(event is Enqueued && event->Enqueued_0 is Some) && !(event is Output
                && event->Output_0 is Some) ==> final(self).router == old(self).router,
            match event {
                LoopEvent::Cancelled => r == LoopAction::<M>::End(
                    LoopEnd { result: Ok(()), status: QueryEndState::Canceled },
                ),
                LoopEvent::Interrupted => r == LoopAction::<M>::End(
                    LoopEnd { result: Ok(()), status: QueryEndState::Canceled },
                ),
                LoopEvent::TaskEnded { result, was_cancelled } => match result {
                    Ok(_) => r is Continue,
                    Err(error) => r == LoopAction::<M>::End(
                        if was_cancelled {
                            LoopEnd { result: Ok(()), status: QueryEndState::Canceled }
                        } else {
                            LoopEnd { result: Err(error), status: QueryEndState::Failed }
                        },
                    ),
                },
                LoopEvent::Enqueued(None) => r is CloseSources,
                LoopEvent::Enqueued(Some(message)) => {
                    &&& r == LoopAction::<M>::Feed {
                        input_id: message.input_id,
                        sources: message.sources,
                    }
                    &&& forall|id: InputId| #[trigger]
                        final(self).router.route(id) == (if id == message.input_id {
                            Some(message.result_sender)
                        } else {
                            old(self).router.route(id)
                        })
                },
                LoopEvent::Output(None) => r is ShutDown,
                LoopEvent::Output(Some(message)) => match message {
                    PipelineMessage::Flush(input_id) => {
                        &&& r is Continue
                        &&& forall|id: InputId| #[trigger]
                            final(self).router.route(id) == (if id == input_id {
                                None
                            } else {
                                old(self).router.route(id)
                            })
                    },
                    PipelineMessage::Morsel { input_id, partition } => {
                        &&& final(self).router == old(self).router
                        &&& hands_on(
                            old(self).router,
                            input_id,
                            ExecutionEngineResultItem::Partition(partition),
                            r,
                        )
                    },
                    PipelineMessage::FlightPartitionRef { input_id, partition_ref } => {
                        &&& final(self).router == old(self).router
                        &&& hands_on(
                            old(self).router,
                            input_id,
                            ExecutionEngineResultItem::FlightPartitionRef(partition_ref),
                            r,
                        )
                    },
                },
                LoopEvent::ShutDown(result) => match result {
                    Ok(_) => r == LoopAction::<M>::End(
                        LoopEnd { result: Ok(()), status: QueryEndState::Finished },
                    ),
                    Err(error) => r == LoopAction::<M>::End(
                        LoopEnd { result: Err(error), status: QueryEndState::Failed },
                    ),
                },
            },
    {
        match event {
            LoopEvent::Cancelled => LoopAction::End(
                LoopEnd { result: Ok(()), status: QueryEndState::Canceled },
            ),
            LoopEvent::Interrupted => LoopAction::End(
                LoopEnd { result: Ok(()), status: QueryEndState::Canceled },
            ),
            LoopEvent::TaskEnded { result, was_cancelled } => match result {
                Ok(_) => LoopAction::Continue,
                Err(error) => {
                    if was_cancelled {
                        LoopAction::End(
                            LoopEnd { result: Ok(()), status: QueryEndState::Canceled },
                        )
                    } else {
                        LoopAction::End(
                            LoopEnd { result: Err(error), status: QueryEndState::Failed },
                        )
                    }
                },
            },
            LoopEvent::Enqueued(None) => {
                self.input_exhausted = true;
                LoopAction::CloseSources
            },
            LoopEvent::Enqueued(Some(message)) => {
                self.router.insert_output_sender(message.input_id, message.result_sender);
                LoopAction::Feed { input_id: message.input_id, sources: message.sources }
            },
            LoopEvent::Output(None) => LoopAction::ShutDown,
            LoopEvent::Output(Some(message)) => match self.router.route_message(message) {
                Routed::Dropped => LoopAction::Continue,
                Routed::Deliver { index, item } => LoopAction::Deliver { index, item },
            },
            LoopEvent::ShutDown(result) => match result {
                Ok(_) => LoopAction::End(
                    LoopEnd { result: Ok(()), status: QueryEndState::Finished },
                ),
                Err(error) => LoopAction::End(
                    LoopEnd { result: Err(error), status: QueryEndState::Failed },
                ),
            },
        }
    }
}

/// Whether an item is handed on to its input, or dropped, where that is not open.
pub open spec fn hands_on<S, M>(
    router: MessageRouter<S>,
    input_id: InputId,
    item: ExecutionEngineResultItem<M>,
    action: LoopAction<M>,
) -> bool {
    match router.route(input_id) {
        None => action is Continue,
        Some(sender) => {
            &&& action is Deliver
            &&& action->Deliver_item == item
            &&& action->index < router.open@.len()
            &&& router.open@[action->index as int].input_id == input_id
            &&& router.open@[action->index as int].sender == sender
        },
    }
}

/// Where a failure is delivered to.
pub struct FailureDelivery<S> {
    pub to: S,
    pub error: Arc<DaftError>,
}

/// How a pipeline has ended.
pub struct FinishedStreams<S> {
    pub result: Result<(), DaftError>,
    /// What is delivered before the results are closed.
    pub deliveries: Vec<FailureDelivery<S>>,
}

/// Ends a pipeline. Where it failed, every input that is still open, and every input that was
/// accepted but not taken up yet, gets the failure; and so will every input that is rejected
/// from now on. All get the same one. The first failure of a pipeline is the one that counts.
pub fn finish_input_streams<S>(
    router: MessageRouter<S>,
    queued: Vec<EnqueueInputMessage<S>>,
    result: Result<(), DaftError>,
    failure: &mut Option<Arc<DaftError>>,
) -> (r: FinishedStreams<S>)
    ensures
        match result {
            Ok(_) => {
                &&& r.result is Ok
                &&& r.deliveries@.len() == 0
                &&& *final(failure) == *old(failure)
            },
            Err(error) => {
                &&& r.result is Err
                &&& r.result->Err_0 is Shared
                &&& shared_error(r.result->Err_0) == error
                &&& *final(failure) == (if *old(failure) is Some {
                    *old(failure)
                } else {
                    Some(r.result->Err_0->Shared_0)
                })
                &&& r.deliveries@.len() == router.open@.len() + queued@.len()
                &&& forall|i: int|
                    0 <= i < r.deliveries@.len() ==> {
                        &&& (#[trigger] r.deliveries@[i]).error == r.result->Err_0->Shared_0
                        &&& r.deliveries@[i].to == (if i < router.open@.len() {
                            router.open@[i].sender
                        } else {
                            queued@[i - router.open@.len()].result_sender
                        })
                    }
            },
        },
{
    let mut deliveries: Vec<FailureDelivery<S>> = Vec::new();
    match result {
        Ok(_) => FinishedStreams { result: Ok(()), deliveries },
        Err(error) => {
            let shared: Arc<DaftError> = Arc::new(error);
            if failure.is_none() {
                *failure = Some(Arc::clone(&shared));
            }
            let ghost open = router.open@;
            let ghost waiting = queued@;
            let mut rest: Vec<OpenInput<S>> = reversed(router.open);
            while rest.len() > 0
                invariant
                    deliveries@.len() + rest@.len() == open.len(),
                    forall|i: int|
                        0 <= i < rest@.len() ==> #[trigger] rest@[i] == open[open.len() - 1 - i],
                    forall|i: int|
                        0 <= i < deliveries@.len() ==> (#[trigger] deliveries@[i]).error == shared
                            && deliveries@[i].to == open[i].sender,
                decreases rest@.len(),
            {
                match rest.pop() {
                    Some(input) => {
                        deliveries.push(
                            FailureDelivery { to: input.sender, error: Arc::clone(&shared) },
                        );
                    },
                    None => {},
                }
            }
            let mut pending: Vec<EnqueueInputMessage<S>> = reversed(queued);
            while pending.len() > 0
                invariant
                    deliveries@.len() + pending@.len() == open.len() + waiting.len(),
                    pending@.len() <= waiting.len(),
                    forall|i: int|
                        0 <= i < pending@.len() ==> #[trigger] pending@[i]
                            == waiting[waiting.len() - 1 - i],
                    forall|i: int|
                        0 <= i < deliveries@.len() ==> {
                            &&& (#[trigger] deliveries@[i]).error == shared
                            &&& deliveries@[i].to == (if i < open.len() {
                                open[i].sender
                            } else {
                                waiting[i - open.len()].result_sender
                            })
                        },
                decreases pending@.len(),
            {
                match pending.pop() {
                    Some(message) => {
                        deliveries.push(
                            FailureDelivery {
                                to: message.result_sender,
                                error: Arc::clone(&shared),
                            },
                        );
                    },
                    None => {},
                }
            }
            FinishedStreams { result: Err(DaftError::Shared(shared)), deliveries }
        },
    }
}

/// What the submitter of an input holds.
pub struct ExecutionEngineResult {
    pub generation: u64,
    /// Why no more comes, where that is for a failure.
    pub error: Option<Arc<DaftError>>,
}

impl ExecutionEngineResult {
    pub fn generation(&self) -> (g: u64)
        ensures
            g == self.generation,
    {
        self.generation
    }

    /// An input that was handed to a pipeline, accepted or not. A rejected one gets the failure
    /// of the pipeline; it too is finished later on.
    pub fn enqueue(accepted: bool, failure: &Option<Arc<DaftError>>, generation: u64) -> (r:
        ExecutionEngineResult)
        ensures
            r.generation == generation,
            accepted ==> r.error is None,
            !accepted ==> match *failure {
                Some(error) => r.error == Some(error),
                None => r.error is Some && r.error->0.is_internal_error(
                    "Plan execution task has died; cannot enqueue new input"@,
                ),
            },
    {
        let error: Option<Arc<DaftError>> = if accepted {
            None
        } else {
            match failure {
                Some(error) => Some(Arc::clone(error)),
                None => Some(
                    Arc::new(
                        DaftError::internal_error(
                            "Plan execution task has died; cannot enqueue new input",
                        ),
                    ),
                ),
            }
        };
        ExecutionEngineResult { generation, error }
    }

    /// Takes what came for the input: the next item, or nothing more. A failure is kept, and
    /// nothing more comes.
    pub fn next<M>(&mut self, item: Option<ExecutionEngineResultItem<M>>) -> (r: Option<
        ExecutionEngineResultItem<M>,
    >)
        ensures
            final(self).generation == old(self).generation,
            match item {
                Some(ExecutionEngineResultItem::Error(error)) => r is None && final(self).error
                    == Some(error),
                _ => r == item && final(self).error == old(self).error,
            },
    {
        match item {
            Some(ExecutionEngineResultItem::Error(error)) => {
                self.error = Some(error);
                None
            },
            item => item,
        }
    }

    /// What the input returns in the end: its own failure, whatever became of the pipeline; else
    /// what finishing it gave.
    pub fn finish<T>(self, finished: Result<T, DaftError>) -> (r: Result<T, DaftError>)
        ensures
            match self.error {
                Some(error) => r == Err::<T, DaftError>(DaftError::Shared(error)),
                None => r == finished,
            },
    {
        match self.error {
            Some(error) => Err(DaftError::Shared(error)),
            None => finished,
        }
    }
}

/// A pipeline and the inputs that have joined it. A plan whose pipeline has died while inputs
/// still hold on to it is retired; another pipeline takes its place, under another generation.
pub struct PlanState<H> {
    pub fingerprint: u64,
    pub generation: u64,
    pub retired: bool,
    pub active_input_ids: HashSet<InputId>,
    pub handle: H,
}

/// All pipelines of a node.
pub struct NativeExecutor<H> {
    pub is_flotilla_worker: bool,
    pub plans: Vec<PlanState<H>>,
}

/// What becomes of an input.
#[derive(Clone, Copy, Debug, PartialEq, Eq, Structural)]
pub enum RunOutcome {
    /// A pipeline is to be built for it.
    Build,
    /// It has joined a pipeline.
    Joined { generation: u64 },
}

/// What becomes of a pipeline when an input has finished.
pub enum FinishedInput<H> {
    /// The pipeline is gone already.
    Gone,
    /// Other inputs hold on to it.
    Kept,
    /// Nobody needs it any more.
    Removed(PlanState<H>),
}

/// Plans without those of one fingerprint.
pub open spec fn other_plans<H>(plans: Seq<PlanState<H>>, fingerprint: u64) -> Seq<PlanState<H>>
    decreases plans.len(),
{
    if plans.len() == 0 {
        plans
    } else if plans.last().fingerprint == fingerprint {
        other_plans(plans.drop_last(), fingerprint)
    } else {
        other_plans(plans.drop_last(), fingerprint).push(plans.last())
    }
}

/// Whether a plan is the one that inputs of its fingerprint join.
pub open spec fn is_current<H>(plan: PlanState<H>, fingerprint: u64) -> bool {
    plan.fingerprint == fingerprint && !plan.retired
}

/// Whether a plan is of the given fingerprint and generation.
pub open spec fn is_generation<H>(plan: PlanState<H>, fingerprint: u64, generation: u64) -> bool {
    plan.fingerprint == fingerprint && plan.generation == generation
}

/// Whether plans could be those of an executor.
pub open spec fn plans_wf<H>(plans: Seq<PlanState<H>>) -> bool {
    forall|i: int, j: int|
        #![trigger plans[i], plans[j]]
        0 <= i < j < plans.len() ==> {
            &&& plans[i].generation != plans[j].generation
            &&& plans[i].fingerprint == plans[j].fingerprint ==> plans[i].retired
                || plans[j].retired
        }
}

/// Plans that stay where they are, and stay retired where they are, are still those of an
/// executor.
proof fn lemma_plans_stay<H>(before: Seq<PlanState<H>>, after: Seq<PlanState<H>>)
    requires
        plans_wf(before),
        after.len() == before.len(),
        forall|i: int|
            0 <= i < before.len() ==> {
                let plan = #[trigger] after[i];
                &&& plan.generation == before[i].generation
                &&& plan.fingerprint == before[i].fingerprint
                &&& before[i].retired ==> plan.retired
            },
    ensures
        plans_wf(after),
{
    assert forall|i: int, j: int|
        #![trigger after[i], after[j]]
        0 <= i < j < after.len() implies {
        &&& after[i].generation != after[j].generation
        &&& after[i].fingerprint == after[j].fingerprint ==> after[i].retired || after[j].retired
    } by {
        assert(before[i].generation != before[j].generation);
    }
}

impl<H> NativeExecutor<H> {
    /// Generations are distinct, and of each fingerprint at most one plan is current.
    pub open spec fn wf(&self) -> bool {
        plans_wf(self.plans@)
    }

    /// Whether all generations are numbers that were given before the next one.
    pub open spec fn numbered(&self, numbers: AutoNumbers) -> bool {
        forall|i: int|
            0 <= i < self.plans@.len() ==> (#[trigger] self.plans@[i]).generation < numbers.next
    }

    /// Whether there is a pipeline that inputs of a fingerprint join.
    pub open spec fn has_current(&self, fingerprint: u64) -> bool {
        exists|i: int|
            0 <= i < self.plans@.len() && is_current(#[trigger] self.plans@[i], fingerprint)
    }

    /// No pipelines yet.
    pub fn new(is_flotilla_worker: bool) -> (e: NativeExecutor<H>)
        ensures
            e.wf(),
            e.is_flotilla_worker == is_flotilla_worker,
            e.plans@.len() == 0,
    {
        NativeExecutor { is_flotilla_worker, plans: Vec::new() }
    }

    /// How many pipelines there are, retired ones too.
    pub fn active_plan_count(&self) -> (n: usize)
        ensures
            n == self.plans@.len(),
    {
        self.plans.len()
    }

    fn find_current(&self, fingerprint: u64) -> (r: Option<usize>)
        ensures
            match r {
                Some(i) => i < self.plans@.len() && is_current(self.plans@[i as int], fingerprint),
                None => !self.has_current(fingerprint),
            },
    {
        let mut i: usize = 0;
        while i < self.plans.len()
            invariant
                i <= self.plans@.len(),
                forall|k: int|
                    0 <= k < i ==> !is_current(#[trigger] self.plans@[k], fingerprint),
            decreases self.plans@.len() - i,
        {
            if self.plans[i].fingerprint == fingerprint && !self.plans[i].retired {
                return Some(i);
            }
            i = i + 1;
        }
        None
    }

    /// Makes ready for an input: a pipeline that takes no more inputs is retired. Says whether a
    /// pipeline is to be built.
    pub fn begin_run(&mut self, fingerprint: u64, current_is_closed: bool) -> (build: bool)
        requires
            old(self).wf(),
        ensures
            final(self).wf(),
            forall|n: AutoNumbers| #[trigger] old(self).numbered(n) ==> final(self).numbered(n),
            build == (!old(self).has_current(fingerprint) || current_is_closed),
            build == !final(self).has_current(fingerprint),
            final(self).is_flotilla_worker == old(self).is_flotilla_worker,
            final(self).plans@.len() == old(self).plans@.len(),
            forall|i: int|
                0 <= i < old(self).plans@.len() ==> #[trigger] final(self).plans@[i] == (
                if is_current(old(self).plans@[i], fingerprint) && current_is_closed {
                    PlanState { retired: true, ..old(self).plans@[i] }
                } else {
                    old(self).plans@[i]
                }),
    {
        match self.find_current(fingerprint) {
            None => true,
            Some(at) => {
                assert(is_current(self.plans@[at as int], fingerprint));
                assert(self.has_current(fingerprint));
                if !current_is_closed {
                    return false;
                }
                self.plans[at].retired = true;
                proof {
                    let before = old(self).plans@;
                    let after = self.plans@;
                    assert forall|i: int|
                        0 <= i < before.len() && i != at implies !is_current(
                        #[trigger] before[i],
                        fingerprint,
                    ) by {
                        if is_current(before[i], fingerprint) {
                            if i < at {
                                assert(before[i].retired || before[at as int].retired);
                            } else {
                                assert(before[at as int].retired || before[i].retired);
                            }
                        }
                    }
                    assert forall|i: int|
                        0 <= i < after.len() implies !is_current(#[trigger] after[i], fingerprint) by {
                        if i != at {
                            assert(after[i] == before[i]);
                        }
                    }
                    lemma_plans_stay(before, after);
                }
                true
            },
        }
    }

    /// Adds a pipeline, under a generation of its own.
    pub fn install_plan(&mut self, numbers: &mut AutoNumbers, fingerprint: u64, handle: H) -> (generation:
        u64)
        requires
            old(self).wf(),
            old(self).numbered(*old(numbers)),
            !old(self).has_current(fingerprint),
            old(numbers).next < u64::MAX,
        ensures
            final(self).wf(),
            final(self).numbered(*final(numbers)),
            generation == old(numbers).next,
            final(numbers).next == old(numbers).next + 1,
            final(self).is_flotilla_worker == old(self).is_flotilla_worker,
            final(self).plans@.len() == old(self).plans@.len() + 1,
            final(self).plans@.drop_last() == old(self).plans@,
            final(self).plans@.last() == (PlanState {
                fingerprint,
                generation,
                retired: false,
                active_input_ids: final(self).plans@.last().active_input_ids,
                handle,
            }),
            final(self).plans@.last().active_input_ids@ == Set::<InputId>::empty(),
    {
        let generation: u64 = next_auto_fingerprint(numbers);
        self.plans.push(
            PlanState {
                fingerprint,
                generation,
                retired: false,
                active_input_ids: HashSet::new(),
                handle,
            },
        );
        proof {
            let before = old(self).plans@;
            let after = self.plans@;
            assert(after.drop_last() =~= before);
            assert forall|i: int, j: int|
                #![trigger after[i], after[j]]
                0 <= i < j < after.len() implies {
                &&& after[i].generation != after[j].generation
                &&& after[i].fingerprint == after[j].fingerprint ==> after[i].retired
                    || after[j].retired
            } by {
                assert(after[i] == before[i]);
                assert(before[i].generation < old(numbers).next);
                if j < before.len() {
                    assert(before[i].generation != before[j].generation);
                } else if before[i].fingerprint == fingerprint && !before[i].retired {
                    assert(is_current(before[i], fingerprint));
                }
            }
            assert forall|i: int| 0 <= i < after.len() implies (#[trigger] after[i]).generation
                < numbers.next by {
                if i < before.len() {
                    assert(before[i].generation < old(numbers).next);
                }
            }
        }
        generation
    }

    /// Has an input join the pipeline of its fingerprint.
    pub fn join_plan(&mut self, fingerprint: u64, input_id: InputId) -> (generation: Option<u64>)
        requires
            old(self).wf(),
        ensures
            final(self).wf(),
            forall|n: AutoNumbers| #[trigger] old(self).numbered(n) ==> final(self).numbered(n),
            generation is Some <==> old(self).has_current(fingerprint),
            final(self).is_flotilla_worker == old(self).is_flotilla_worker,
            final(self).plans@.len() == old(self).plans@.len(),
            forall|i: int|
                0 <= i < old(self).plans@.len() ==> {
                    let before = old(self).plans@[i];
                    let after = #[trigger] final(self).plans@[i];
                    &&& !is_current(before, fingerprint) ==> after == before
                    &&& is_current(before, fingerprint) ==> {
                        &&& generation == Some(before.generation)
                        &&& after.active_input_ids@ == before.active_input_ids@.insert(input_id)
                        &&& after == PlanState {
                            active_input_ids: after.active_input_ids,
                            ..before
                        }
                    }
                },
    {
        match self.find_current(fingerprint) {
            None => {
                proof {
                    assert forall|i: int| 0 <= i < self.plans@.len() implies !is_current(
                        #[trigger] self.plans@[i],
                        fingerprint,
                    ) by {}
                }
                None
            },
            Some(at) => {
                assert(is_current(self.plans@[at as int], fingerprint));
                let generation: u64 = self.plans[at].generation;
                self.plans[at].active_input_ids.insert(input_id);
                proof {
                    let before = old(self).plans@;
                    let after = self.plans@;
                    assert forall|i: int|
                        0 <= i < before.len() && i != at implies !is_current(
                        #[trigger] before[i],
                        fingerprint,
                    ) by {
                        if is_current(before[i], fingerprint) {
                            if i < at {
                                assert(before[i].retired || before[at as int].retired);
                            } else {
                                assert(before[at as int].retired || before[i].retired);
                            }
                        }
                    }
                    lemma_plans_stay(before, after);
                }
                Some(generation)
            },
        }
    }

    /// Has an input join the pipeline of its fingerprint. Where there is none, or where it takes
    /// no more inputs, `pipeline` takes its place; without one, it is to be built first.
    pub fn run(
        &mut self,
        numbers: &mut AutoNumbers,
        fingerprint: u64,
        input_id: InputId,
        current_is_closed: bool,
        pipeline: Option<H>,
    ) -> (r: RunOutcome)
        requires
            old(self).wf(),
            old(self).numbered(*old(numbers)),
            old(numbers).next < u64::MAX,
        ensures
            final(self).wf(),
            final(self).numbered(*final(numbers)),
            final(self).is_flotilla_worker == old(self).is_flotilla_worker,
            ({
                let build = !old(self).has_current(fingerprint) || current_is_closed;
                let before = old(self).plans@;
                let after = final(self).plans@;
                &&& r is Build <==> build && pipeline is None
                &&& after.len() == before.len() + if build && pipeline is Some {
                    1int
                } else {
                    0int
                }
                &&& forall|i: int|
                    0 <= i < before.len() && !is_current(before[i], fingerprint)
                        ==> #[trigger] after[i] == before[i]
                &&& forall|i: int|
                    0 <= i < before.len() && is_current(before[i], fingerprint)
                        && current_is_closed ==> #[trigger] after[i] == (PlanState {
                        retired: true,
                        ..before[i]
                    })
                &&& forall|i: int|
                    0 <= i < before.len() && is_current(before[i], fingerprint)
                        && !current_is_closed ==> {
                        let joined = #[trigger] after[i];
                        &&& r == RunOutcome::Joined { generation: before[i].generation }
                        &&& joined.active_input_ids@ == before[i].active_input_ids@.insert(input_id)
                        &&& joined == PlanState {
                            active_input_ids: joined.active_input_ids,
                            ..before[i]
                        }
                    }
                &&& build && pipeline is Some ==> {
                    let added = after.last();
                    &&& r == RunOutcome::Joined { generation: old(numbers).next }
                    &&& added.active_input_ids@ == Set::<InputId>::empty().insert(input_id)
                    &&& added == PlanState {
                        fingerprint,
                        generation: old(numbers).next,
                        retired: false,
                        active_input_ids: added.active_input_ids,
                        handle: pipeline->0,
                    }
                }
                &&& final(numbers).next == old(numbers).next + if build && pipeline is Some {
                    1int
                } else {
                    0int
                }
            }),
    {
        let build: bool = self.begin_run(fingerprint, current_is_closed);
        let ghost begun = *self;
        if build {
            match pipeline {
                None => {
                    return RunOutcome::Build;
                },
                Some(handle) => {
                    self.install_plan(numbers, fingerprint, handle);
                },
            }
        }
        let ghost ready = *self;
        proof {
            if build {
                assert(ready.plans@.last() == ready.plans@[ready.plans@.len() - 1]);
                assert(is_current(ready.plans@[ready.plans@.len() - 1], fingerprint));
                assert forall|i: int| 0 <= i < begun.plans@.len() implies #[trigger] ready.plans@[i]
                    == begun.plans@[i] && !is_current(begun.plans@[i], fingerprint) by {
                    assert(ready.plans@.drop_last()[i] == ready.plans@[i]);
                }
            }
            assert(ready.has_current(fingerprint));
        }
        match self.join_plan(fingerprint, input_id) {
            Some(generation) => {
                proof {
                    if build {
                        assert(self.plans@.last() == self.plans@[self.plans@.len() - 1]);
                    }
                }
                RunOutcome::Joined { generation }
            },
            None => RunOutcome::Build,
        }
    }

    /// Finishes an input in exactly the generation that it joined: a late one can release a
    /// retired pipeline, but not touch its replacement. A pipeline goes once no input holds on
    /// to it, or where it takes no more inputs.
    pub fn try_finish(
        &mut self,
        fingerprint: u64,
        input_id: InputId,
        generation: u64,
        is_closed: bool,
    ) -> (r: FinishedInput<H>)
        requires
            old(self).wf(),
        ensures
            final(self).wf(),
            forall|n: AutoNumbers| #[trigger] old(self).numbered(n) ==> final(self).numbered(n),
            final(self).is_flotilla_worker == old(self).is_flotilla_worker,
            (forall|i: int|
                0 <= i < old(self).plans@.len() ==> !is_generation(
                    #[trigger] old(self).plans@[i],
                    fingerprint,
                    generation,
                )) ==> r is Gone && final(self).plans@ == old(self).plans@,
            forall|i: int|
                0 <= i < old(self).plans@.len() && is_generation(
                    #[trigger] old(self).plans@[i],
                    fingerprint,
                    generation,
                ) ==> {
                    let before = old(self).plans@[i];
                    let left = before.active_input_ids@.remove(input_id);
                    if left.is_empty() || is_closed {
                        &&& r is Removed
                        &&& r->Removed_0.active_input_ids@ == left
                        &&& r->Removed_0 == PlanState {
                            active_input_ids: r->Removed_0.active_input_ids,
                            ..before
                        }
                        &&& final(self).plans@ == old(self).plans@.remove(i)
                    } else {
                        let after = final(self).plans@[i];
                        &&& r is Kept
                        &&& after.active_input_ids@ == left
                        &&& after == PlanState {
                            active_input_ids: after.active_input_ids,
                            ..before
                        }
                        &&& final(self).plans@ == old(self).plans@.update(i, after)
                    }
                },
    {
        let mut at: usize = 0;
        while at < self.plans.len() && !(self.plans[at].fingerprint == fingerprint
            && self.plans[at].generation == generation)
            invariant
                at <= self.plans@.len(),
                *self == *old(self),
                forall|k: int|
                    0 <= k < at ==> !is_generation(
                        #[trigger] self.plans@[k],
                        fingerprint,
                        generation,
                    ),
            decreases self.plans@.len() - at,
        {
            at = at + 1;
        }
        if at >= self.plans.len() {
            return FinishedInput::Gone;
        }
        proof {
            assert(is_generation(self.plans@[at as int], fingerprint, generation));
            assert forall|i: int|
                0 <= i < self.plans@.len() && is_generation(
                    #[trigger] self.plans@[i],
                    fingerprint,
                    generation,
                ) implies i == at by {
                if i > at {
                    assert(self.plans@[at as int].generation != self.plans@[i].generation);
                }
            }
        }
        self.plans[at].active_input_ids.remove(&input_id);
        let unused: bool = self.plans[at].active_input_ids.is_empty();
        if unused || is_closed {
            let removed: PlanState<H> = self.plans.remove(at);
            proof {
                let before = old(self).plans@;
                let after = self.plans@;
                assert(after =~= before.remove(at as int));
                assert forall|i: int, j: int|
                    #![trigger after[i], after[j]]
                    0 <= i < j < after.len() implies {
                    &&& after[i].generation != after[j].generation
                    &&& after[i].fingerprint == after[j].fingerprint ==> after[i].retired
                        || after[j].retired
                } by {
                    let x = if i < at { i } else { i + 1 };
                    let y = if j < at { j } else { j + 1 };
                    assert(before[x].generation != before[y].generation);
                }
            }
            FinishedInput::Removed(removed)
        } else {
            proof {
                let before = old(self).plans@;
                let after = self.plans@;
                assert(after =~= before.update(at as int, after[at as int]));
                lemma_plans_stay(before, after);
            }
            FinishedInput::Kept
        }
    }

    /// Drops all pipelines of a fingerprint, which ends them.
    pub fn cancel_plan(&mut self, fingerprint: u64)
        requires
            old(self).wf(),
        ensures
            final(self).wf(),
            forall|n: AutoNumbers| #[trigger] old(self).numbered(n) ==> final(self).numbered(n),
            final(self).is_flotilla_worker == old(self).is_flotilla_worker,
            final(self).plans@ == other_plans(old(self).plans@, fingerprint),
    {
        let ghost all = self.plans@;
        let mut old_plans: Vec<PlanState<H>> = Vec::new();
        std::mem::swap(&mut self.plans, &mut old_plans);
        let mut rest: Vec<PlanState<H>> = reversed(old_plans);
        let mut kept: Vec<PlanState<H>> = Vec::new();
        let ghost mut n: int = 0;
        assert(all.take(0) =~= Seq::<PlanState<H>>::empty());
        while rest.len() > 0
            invariant
                0 <= n <= all.len(),
                rest@.len() == all.len() - n,
                forall|i: int|
                    0 <= i < rest@.len() ==> #[trigger] rest@[i] == all[all.len() - 1 - i],
                kept@ == other_plans(all.take(n), fingerprint),
            decreases rest@.len(),
        {
            match rest.pop() {
                Some(plan) => {
                    assert(plan == all[n]);
                    assert(all.take(n + 1).drop_last() =~= all.take(n));
                    if plan.fingerprint != fingerprint {
                        kept.push(plan);
                    }
                },
                None => {},
            }
            proof {
                n = n + 1;
            }
        }
        assert(all.take(n) =~= all);
        self.plans = kept;
        proof {
            lemma_other_plans_keep_order(*old(self), all.len() as int, fingerprint);
            assert(all.take(all.len() as int) =~= all);
        }
    }
}

proof fn lemma_other_plans_keep_order<H>(e: NativeExecutor<H>, n: int, fingerprint: u64)
    requires
        e.wf(),
        0 <= n <= e.plans@.len(),
    ensures
        ({
            let kept = other_plans(e.plans@.take(n), fingerprint);
            &&& plans_wf(kept)
            &&& forall|k: int|
                0 <= k < kept.len() ==> exists|i: int|
                    0 <= i < n && #[trigger] e.plans@[i] == #[trigger] kept[k]
        }),
    decreases n,
{
    let part = e.plans@.take(n);
    let kept = other_plans(part, fingerprint);
    if n > 0 {
        lemma_other_plans_keep_order(e, n - 1, fingerprint);
        assert(part.drop_last() =~= e.plans@.take(n - 1));
        let before = other_plans(e.plans@.take(n - 1), fingerprint);
        assert forall|k: int| 0 <= k < kept.len() implies exists|i: int|
            0 <= i < n && #[trigger] e.plans@[i] == #[trigger] kept[k] by {
            if k < before.len() {
                assert(kept[k] == before[k]);
                let i = choose|i: int| 0 <= i < n - 1 && #[trigger] e.plans@[i] == before[k];
                assert(e.plans@[i] == kept[k]);
            } else {
                assert(e.plans@[n - 1] == kept[k]);
            }
        }
        if kept.len() > before.len() {
            assert forall|i: int, j: int|
                #![trigger kept[i], kept[j]]
                0 <= i < j < kept.len() implies {
                &&& kept[i].generation != kept[j].generation
                &&& kept[i].fingerprint == kept[j].fingerprint ==> kept[i].retired
                    || kept[j].retired
            } by {
                assert(kept[i] == before[i]);
                if j < before.len() {
                    assert(kept[j] == before[j]);
                } else {
                    let x = choose|x: int| 0 <= x < n - 1 && #[trigger] e.plans@[x] == before[i];
                    assert(e.plans@[x].generation != e.plans@[n - 1].generation);
                }
            }
        }
    }
}

/// Numbers that were given stay given.
pub proof fn numbers_stay_given<H>(e: NativeExecutor<H>, earlier: AutoNumbers, later: AutoNumbers)
    requires
        e.numbered(earlier),
        earlier.next <= later.next,
    ensures
        e.numbered(later),
{
    assert forall|i: int| 0 <= i < e.plans@.len() implies (#[trigger] e.plans@[i]).generation
        < later.next by {}
}

/// No pipeline of any executor of the process has the number that comes next, be it for a
/// generation or for a fingerprint: executors that share where their numbers come from never
/// share a generation.
pub proof fn generations_are_never_shared<H>(e: NativeExecutor<H>, numbers: AutoNumbers, i: int)
    requires
        e.numbered(numbers),
        0 <= i < e.plans@.len(),
    ensures
        e.plans@[i].generation != numbers.next,
{
}

/// How many items come before the first failure.
pub open spec fn before_failure<M>(items: Seq<ExecutionEngineResultItem<M>>, n: int) -> int
    decreases n,
{
    if n <= 0 {
        0
    } else if before_failure(items, n - 1) < n - 1 || items[n - 1] is Error {
        before_failure(items, n - 1)
    } else {
        n
    }
}

/// The partitions among the first `n` items.
pub open spec fn partitions_in<M>(items: Seq<ExecutionEngineResultItem<M>>, n: int) -> Seq<M>
    decreases n,
{
    if n <= 0 {
        Seq::empty()
    } else {
        match items[n - 1] {
            ExecutionEngineResultItem::Partition(p) => partitions_in(items, n - 1).push(p),
            _ => partitions_in(items, n - 1),
        }
    }
}

/// The flight partitions among the first `n` items.
pub open spec fn refs_in<M>(items: Seq<ExecutionEngineResultItem<M>>, n: int) -> Seq<
    FlightPartitionRef,
>
    decreases n,
{
    if n <= 0 {
        Seq::empty()
    } else {
        match items[n - 1] {
            ExecutionEngineResultItem::FlightPartitionRef(r) => refs_in(items, n - 1).push(r),
            _ => refs_in(items, n - 1),
        }
    }
}

proof fn lemma_before_failure_stays<M>(
    items: Seq<ExecutionEngineResultItem<M>>,
    n: int,
    all: int,
)
    requires
        0 <= n <= all,
        before_failure(items, n) < n,
    ensures
        before_failure(items, all) == before_failure(items, n),
    decreases all - n,
{
    if n < all {
        lemma_before_failure_stays(items, n + 1, all);
    }
}

impl ExecutionEngineResult {
    /// All that came for an input, or its failure.
    pub fn collect_outputs_for_testing<M>(self, items: Vec<ExecutionEngineResultItem<M>>) -> (r:
        Result<(Vec<M>, Vec<FlightPartitionRef>), DaftError>)
        ensures
            ({
                let k = before_failure(items@, items@.len() as int);
                if k < items@.len() {
                    items@[k] is Error && r == Err::<
                        (Vec<M>, Vec<FlightPartitionRef>),
                        DaftError,
                    >(DaftError::Shared(items@[k]->Error_0))
                } else if self.error is Some {
                    r == Err::<(Vec<M>, Vec<FlightPartitionRef>), DaftError>(
                        DaftError::Shared(self.error->0),
                    )
                } else {
                    &&& r is Ok
                    &&& r->Ok_0.0@ == partitions_in(items@, items@.len() as int)
                    &&& r->Ok_0.1@ == refs_in(items@, items@.len() as int)
                }
            }),
    {
        let ghost all = items@;
        let mut me: ExecutionEngineResult = self;
        let mut rest: Vec<ExecutionEngineResultItem<M>> = reversed(items);
        let mut partitions: Vec<M> = Vec::new();
        let mut refs: Vec<FlightPartitionRef> = Vec::new();
        let ghost mut n: int = 0;
        while rest.len() > 0
            invariant
                all == items@,
                0 <= n <= all.len(),
                rest@.len() == all.len() - n,
                forall|i: int|
                    0 <= i < rest@.len() ==> #[trigger] rest@[i] == all[all.len() - 1 - i],
                me.error == self.error,
                before_failure(all, n) == n,
                partitions@ == partitions_in(all, n),
                refs@ == refs_in(all, n),
            decreases rest@.len(),
        {
            let item: Option<ExecutionEngineResultItem<M>> = rest.pop();
            assert(item == Some(all[n]));
            match me.next(item) {
                Some(ExecutionEngineResultItem::Partition(p)) => {
                    partitions.push(p);
                },
                Some(ExecutionEngineResultItem::FlightPartitionRef(r)) => {
                    refs.push(r);
                },
                Some(ExecutionEngineResultItem::Error(_)) => {},
                None => {
                    proof {
                        lemma_before_failure_stays(all, n + 1, all.len() as int);
                    }
                    match me.error {
                        Some(error) => {
                            return Err(DaftError::Shared(error));
                        },
                        None => {
                            return Ok((partitions, refs));
                        },
                    }
                },
            }
            proof {
                n = n + 1;
            }
        }
        match me.error {
            Some(error) => Err(DaftError::Shared(error)),
            None => Ok((partitions, refs)),
        }
    }

    /// All partitions that came for an input.
    pub fn collect_partitions_for_testing<M>(self, items: Vec<ExecutionEngineResultItem<M>>) -> (
    out: Vec<M>)
        ensures
            out@ == partitions_in(items@, items@.len() as int),
    {
        let ghost all = items@;
        let mut rest: Vec<ExecutionEngineResultItem<M>> = reversed(items);
        let mut out: Vec<M> = Vec::new();
        let ghost mut n: int = 0;
        while rest.len() > 0
            invariant
                0 <= n <= all.len(),
                rest@.len() == all.len() - n,
                forall|i: int|
                    0 <= i < rest@.len() ==> #[trigger] rest@[i] == all[all.len() - 1 - i],
                out@ == partitions_in(all, n),
            decreases rest@.len(),
        {
            let item: Option<ExecutionEngineResultItem<M>> = rest.pop();
            assert(item == Some(all[n]));
            match item {
                Some(ExecutionEngineResultItem::Partition(p)) => {
                    out.push(p);
                },
                _ => {},
            }
            proof {
                n = n + 1;
            }
        }
        out
    }
}

/// A key stands for what its last entry says, and for nothing where it has none.
pub proof fn last_entry_counts(context: Seq<ContextEntry>, key: Seq<char>, i: int)
    ensures
        0 <= i < context.len() && context[i].key@ == key && (forall|j: int|
            i < j < context.len() ==> (#[trigger] context[j]).key@ != key) ==> value_of(
            context,
            key,
        ) == Some(context[i].value@),
        (forall|j: int| 0 <= j < context.len() ==> (#[trigger] context[j]).key@ != key) ==> value_of(
            context,
            key,
        ) is None,
    decreases context.len(),
{
    if context.len() > 0 {
        let before = context.drop_last();
        last_entry_counts(before, key, i);
        assert(context[context.len() - 1] == context.last());
        assert forall|j: int| 0 <= j < before.len() implies #[trigger] before[j] == context[j] by {}
        if forall|j: int| 0 <= j < context.len() ==> (#[trigger] context[j]).key@ != key {
            assert forall|j: int| 0 <= j < before.len() implies (#[trigger] before[j]).key@
                != key by {
                assert(context[j].key@ != key);
            }
        }
        if 0 <= i < before.len() && (forall|j: int|
            i < j < context.len() ==> (#[trigger] context[j]).key@ != key) {
            assert forall|j: int| i < j < before.len() implies (#[trigger] before[j]).key@
                != key by {
                assert(context[j].key@ != key);
            }
        }
    }
}

/// What a pipeline gives out for an open input goes to that input, as it is; what it gives out
/// for another one goes nowhere.
pub proof fn outputs_go_to_their_input<S, M>(
    router: MessageRouter<S>,
    input_id: InputId,
    item: ExecutionEngineResultItem<M>,
    routed: Routed<M>,
    action: LoopAction<M>,
    i: int,
)
    requires
        router.wf(),
        delivers(router, input_id, item, routed),
        hands_on(router, input_id, item, action),
    ensures
        0 <= i < router.open@.len() && router.open@[i].input_id == input_id ==> {
            &&& routed is Deliver
            &&& routed->index == i
            &&& routed->item == item
            &&& action is Deliver
            &&& action->index == i
            &&& action->Deliver_item == item
            &&& router.route(input_id) == Some(router.open@[i].sender)
        },
        (forall|j: int|
            0 <= j < router.open@.len() ==> (#[trigger] router.open@[j]).input_id != input_id)
            ==> routed is Dropped && action is Continue && router.route(input_id) is None,
{
    lemma_sender_of(router.open@, input_id);
    if 0 <= i < router.open@.len() && router.open@[i].input_id == input_id {
        let a = routed->index as int;
        let b = action->index as int;
        assert(router.open@[a].input_id == input_id);
        assert(router.open@[b].input_id == input_id);
        if a < i {
            assert(router.open@[a].input_id != router.open@[i].input_id);
        } else if i < a {
            assert(router.open@[i].input_id != router.open@[a].input_id);
        }
        if b < i {
            assert(router.open@[b].input_id != router.open@[i].input_id);
        } else if i < b {
            assert(router.open@[i].input_id != router.open@[b].input_id);
        }
    }
}

/// Cancelling a fingerprint drops its pipelines and no others.
pub proof fn only_cancelled_plans_are_dropped<H>(plans: Seq<PlanState<H>>, fingerprint: u64)
    ensures
        other_plans(plans, fingerprint) == plans.filter(
            |p: PlanState<H>| p.fingerprint != fingerprint,
        ),
{
    lemma_other_plans_filter(
        plans,
        fingerprint,
        |p: PlanState<H>| p.fingerprint != fingerprint,
    );
}

proof fn lemma_other_plans_filter<H>(
    plans: Seq<PlanState<H>>,
    fingerprint: u64,
    stays: spec_fn(PlanState<H>) -> bool,
)
    requires
        forall|p: PlanState<H>| #[trigger] stays(p) == (p.fingerprint != fingerprint),
    ensures
        other_plans(plans, fingerprint) == plans.filter(stays),
    decreases plans.len(),
{
    reveal(Seq::filter);
    if plans.len() > 0 {
        lemma_other_plans_filter(plans.drop_last(), fingerprint, stays);
    }
}

/// Inputs join the pipeline of their fingerprint that is not retired, of which there is at most
/// one.
pub proof fn one_pipeline_takes_inputs<H>(e: NativeExecutor<H>, fingerprint: u64, i: int, j: int)
    requires
        e.wf(),
        0 <= i < e.plans@.len(),
        0 <= j < e.plans@.len(),
        e.plans@[i].fingerprint == fingerprint,
        !e.plans@[i].retired,
    ensures
        e.has_current(fingerprint),
        e.plans@[j].fingerprint == fingerprint && !e.plans@[j].retired ==> i == j,
        e.plans@[i].generation == e.plans@[j].generation ==> i == j,
{
    assert(is_current(e.plans@[i], fingerprint));
    if i < j {
        assert(e.plans@[i].generation != e.plans@[j].generation);
    } else if j < i {
        assert(e.plans@[j].generation != e.plans@[i].generation);
    }
}

/// What comes before the first failure is all that comes, where there is none.
pub proof fn items_end_with_the_first_failure<M>(
    items: Seq<ExecutionEngineResultItem<M>>,
    n: int,
)
    requires
        0 <= n <= items.len(),
    ensures
        0 <= before_failure(items, n) <= n,
        forall|i: int|
            0 <= i < before_failure(items, n) ==> !((#[trigger] items[i]) is Error),
        before_failure(items, n) < n ==> items[before_failure(items, n)] is Error,
    decreases n,
{
    if n > 0 {
        items_end_with_the_first_failure(items, n - 1);
    }
}

/// All partitions that came are there, in their order, and so are all flight partitions.
pub proof fn all_partitions_are_collected<M>(items: Seq<ExecutionEngineResultItem<M>>)
    ensures
        partitions_in(items, items.len() as int) == items.filter(
            |x: ExecutionEngineResultItem<M>| x is Partition,
        ).map_values(|x: ExecutionEngineResultItem<M>| x->Partition_0),
        refs_in(items, items.len() as int) == items.filter(
            |x: ExecutionEngineResultItem<M>| x is FlightPartitionRef,
        ).map_values(|x: ExecutionEngineResultItem<M>| x->FlightPartitionRef_0),
{
    let n = items.len() as int;
    assert(items.take(n) =~= items);
    lemma_collected(
        items,
        n,
        |x: ExecutionEngineResultItem<M>| x is Partition,
        |x: ExecutionEngineResultItem<M>| x->Partition_0,
        |x: ExecutionEngineResultItem<M>| x is FlightPartitionRef,
        |x: ExecutionEngineResultItem<M>| x->FlightPartitionRef_0,
    );
}

proof fn lemma_collected<M>(
    items: Seq<ExecutionEngineResultItem<M>>,
    n: int,
    is_partition: spec_fn(ExecutionEngineResultItem<M>) -> bool,
    partition: spec_fn(ExecutionEngineResultItem<M>) -> M,
    is_ref: spec_fn(ExecutionEngineResultItem<M>) -> bool,
    flight_ref: spec_fn(ExecutionEngineResultItem<M>) -> FlightPartitionRef,
)
    requires
        0 <= n <= items.len(),
        forall|x: ExecutionEngineResultItem<M>| #[trigger] is_partition(x) == (x is Partition),
        forall|x: ExecutionEngineResultItem<M>| #[trigger] partition(x) == x->Partition_0,
        forall|x: ExecutionEngineResultItem<M>| #[trigger] is_ref(x) == (x is FlightPartitionRef),
        forall|x: ExecutionEngineResultItem<M>| #[trigger]
            flight_ref(x) == x->FlightPartitionRef_0,
    ensures
        partitions_in(items, n) == items.take(n).filter(is_partition).map_values(partition),
        refs_in(items, n) == items.take(n).filter(is_ref).map_values(flight_ref),
    decreases n,
{
    reveal(Seq::filter);
    let upto = items.take(n);
    if n > 0 {
        lemma_collected(items, n - 1, is_partition, partition, is_ref, flight_ref);
        let before = items.take(n - 1);
        let x = items[n - 1];
        assert(upto.drop_last() =~= before);
        assert(upto.last() == x);
        if is_partition(x) {
            assert(upto.filter(is_partition).map_values(partition) =~= before.filter(
                is_partition,
            ).map_values(partition).push(partition(x)));
        }
        if is_ref(x) {
            assert(upto.filter(is_ref).map_values(flight_ref) =~= before.filter(is_ref).map_values(
                flight_ref,
            ).push(flight_ref(x)));
        }
    } else {
        assert(upto.filter(is_partition).map_values(partition) =~= Seq::empty());
        assert(upto.filter(is_ref).map_values(flight_ref) =~= Seq::empty());
    }
}

/// There is a pipeline that inputs join exactly where one of their fingerprint is not retired;
/// and a pipeline is of a generation exactly where both its numbers are.
pub proof fn retired_pipelines_take_no_inputs<H>(
    e: NativeExecutor<H>,
    plan: PlanState<H>,
    fingerprint: u64,
    generation: u64,
)
    ensures
        e.has_current(fingerprint) <==> exists|i: int|
            0 <= i < e.plans@.len() && (#[trigger] e.plans@[i]).fingerprint == fingerprint
                && !e.plans@[i].retired,
        is_current(plan, fingerprint) <==> plan.fingerprint == fingerprint && !plan.retired,
        is_generation(plan, fingerprint, generation) <==> plan.fingerprint == fingerprint
            && plan.generation == generation,
{
    if exists|i: int|
        0 <= i < e.plans@.len() && (#[trigger] e.plans@[i]).fingerprint == fingerprint
            && !e.plans@[i].retired {
        let i = choose|i: int|
            0 <= i < e.plans@.len() && (#[trigger] e.plans@[i]).fingerprint == fingerprint
                && !e.plans@[i].retired;
        assert(is_current(e.plans@[i], fingerprint));
    }
}

/// A number is read of a key exactly where the key stands for one.
pub proof fn numbers_are_read_of_their_key(context: Seq<ContextEntry>, key: Seq<char>, max: nat)
    ensures
        value_of(context, key) is None ==> number_of(context, key, max) is None,
        value_of(context, key) matches Some(text) ==> number_of(context, key, max) == parsed(
            text,
            max,
        ),
{
}

} // verus!
