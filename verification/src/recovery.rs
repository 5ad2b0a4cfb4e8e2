//! Reconstruction of shuffle outputs that got lost.
use std::sync::Arc;

use vstd::prelude::*;

use crate::dispatcher::retry_limit;
use crate::error::{DaftError, ShuffleFetchFailure};
use crate::flight::{
    add_output, input_id_from_ref, outputs_of, partition_idx_from_ref, servers_wf, FlightMapOutput,
    FlightPartitionRef, FlightShuffleReadInput, PartitionRef, ServerInputs,
};
use crate::replay::{producer_spec, task_replayable, Input, SwordfishTask, TaskInput};
use crate::text::{owned, parsed};

verus! {

/// How many reconstructions run at a time.
pub const RECOVERY_SLOTS: usize = 4;

/// How often a producer is run again, unless configured otherwise.
pub const DEFAULT_RECOVERY_ATTEMPTS: u32 = 2;

/// How many lost outputs one consumer may meet.
pub const MAX_CONSUMER_FAILURES: u32 = 64;

/// How many reconstructions may depend on each other.
pub const MAX_RECOVERY_DEPTH: usize = 16;

/// How long recovery may take once an output is missed, in seconds.
pub const RECOVERY_DEADLINE_SECS: u64 = 120;

/// Which physical output of which map task this is.
#[derive(Clone, Copy, Debug, PartialEq, Eq, Structural)]
pub struct OutputKey {
    pub shuffle_id: u64,
    pub input_id: u32,
    pub attempt: u64,
}

/// An output and the server that has it.
#[derive(Debug)]
pub struct Location {
    pub output: FlightMapOutput,
    pub server: String,
}

impl Clone for Location {
    fn clone(&self) -> (c: Location)
        ensures
            c == *self,
    {
        Location { output: self.output, server: self.server.clone() }
    }
}

/// A map task whose output can be reconstructed.
#[derive(Debug)]
pub struct Producer {
    pub template: SwordfishTask,
    /// The output that consumers are directed to.
    pub selected: Location,
    /// How often the task was run again.
    pub attempts: u32,
    /// Why it is not run again any more.
    pub terminal: Option<String>,
    /// Whether someone is running it again.
    pub repairing: bool,
    pub num_partitions: usize,
}

/// A name under which a producer's output is, or was, to be had.
#[derive(Clone, Copy, Debug)]
pub struct Alias {
    pub key: OutputKey,
    pub producer: usize,
}

/// All outputs that can be reconstructed.
#[derive(Debug)]
pub struct ShuffleRecovery {
    pub producers: Vec<Producer>,
    /// Physical outputs, old ones too.
    pub aliases: Vec<Alias>,
    /// How many outputs were replaced.
    pub version: u64,
    pub free_slots: usize,
    pub max_attempts: u32,
}

/// The producer of an output, by number.
pub open spec fn resolved(aliases: Seq<Alias>, key: OutputKey) -> Option<usize>
    decreases aliases.len(),
{
    if aliases.len() == 0 {
        None
    } else if aliases.last().key == key {
        Some(aliases.last().producer)
    } else {
        resolved(aliases.drop_last(), key)
    }
}

/// Whether no output occurs twice.
pub open spec fn distinct_keys(aliases: Seq<Alias>) -> bool {
    forall|i: int, j: int|
        #![trigger aliases[i], aliases[j]]
        0 <= i < j < aliases.len() ==> aliases[i].key != aliases[j].key
}

proof fn lemma_resolved(aliases: Seq<Alias>, key: OutputKey)
    requires
        distinct_keys(aliases),
    ensures
        forall|i: int|
            0 <= i < aliases.len() && (#[trigger] aliases[i]).key == key ==> resolved(aliases, key)
                == Some(aliases[i].producer),
        (forall|i: int| 0 <= i < aliases.len() ==> (#[trigger] aliases[i]).key != key) ==> resolved(
            aliases,
            key,
        ) is None,
        resolved(aliases, key) matches Some(p) ==> exists|i: int|
            0 <= i < aliases.len() && (#[trigger] aliases[i]).key == key && aliases[i].producer
                == p,
    decreases aliases.len(),
{
    if aliases.len() > 0 {
        let before = aliases.drop_last();
        assert forall|i: int, j: int|
            #![trigger before[i], before[j]]
            0 <= i < j < before.len() implies before[i].key != before[j].key by {
            assert(before[i] == aliases[i] && before[j] == aliases[j]);
        }
        lemma_resolved(before, key);
        let last = aliases.len() - 1;
        assert(aliases[last] == aliases.last());
        assert forall|i: int|
            0 <= i < aliases.len() && (#[trigger] aliases[i]).key == key implies resolved(
            aliases,
            key,
        ) == Some(aliases[i].producer) by {
            if i < last {
                assert(before[i] == aliases[i]);
            }
        }
        if forall|i: int| 0 <= i < aliases.len() ==> (#[trigger] aliases[i]).key != key {
            assert forall|i: int| 0 <= i < before.len() implies (#[trigger] before[i]).key
                != key by {
                assert(before[i] == aliases[i]);
            }
        }
        if aliases.last().key != key {
            if let Some(p) = resolved(before, key) {
                let i = choose|i: int|
                    0 <= i < before.len() && (#[trigger] before[i]).key == key && before[i].producer
                        == p;
                assert(aliases[i] == before[i]);
            }
        }
    }
}

/// The text of a failed recovery.
pub open spec fn recovery_text(failure: ShuffleFetchFailure, reason: Seq<char>) -> Seq<char> {
    "Cannot recover shared shuffle output: "@ + failure.text() + "; "@ + reason
}

/// The error of a failed recovery.
pub fn recovery_error(failure: &ShuffleFetchFailure, reason: &str) -> (e: DaftError)
    ensures
        e.is_compute_error(recovery_text(*failure, reason@)),
{
    let mut s: String = owned("Cannot recover shared shuffle output: ");
    s.append(failure.to_text().as_str());
    s.append("; ");
    s.append(reason);
    DaftError::ComputeError(s)
}

/// Whether the partition at `i` belongs to the output that begins with `first` and occurs there
/// for the first time.
pub open spec fn consistent_at(
    refs: Seq<PartitionRef>,
    first: FlightPartitionRef,
    shuffle_id: u64,
    count: usize,
    i: int,
) -> bool {
    match refs[i] {
        PartitionRef::InMemory { num_rows: _, size_bytes: _ } => false,
        PartitionRef::Flight(r) => {
            &&& r.shuffle_id == shuffle_id
            &&& r.map_output() == first.map_output()
            &&& r.server_address@ == first.server_address@
            &&& r.partition_idx() < count
            &&& forall|j: int|
                0 <= j < i ==> (#[trigger] refs[j])->Flight_0.partition_idx() != r.partition_idx()
        },
    }
}

/// Why partitions are not the whole output of one map task, if they are not.
pub open spec fn location_problem(refs: Seq<PartitionRef>, shuffle_id: u64, count: usize) -> Option<
    Seq<char>,
> {
    if refs.len() == 0 || refs[0] is InMemory {
        Some("Shared map task returned no Flight output"@)
    } else if exists|i: int|
        0 <= i < refs.len() && !#[trigger] consistent_at(
            refs,
            refs[0]->Flight_0,
            shuffle_id,
            count,
            i,
        ) {
        Some("Inconsistent reconstructed map output"@)
    } else if refs.len() != count {
        Some("Incomplete reconstructed map output"@)
    } else {
        None
    }
}

/// Where the output of a map task is, given its partitions.
pub fn output_location(refs: &Vec<PartitionRef>, shuffle_id: u64, count: usize) -> (r: Result<
    Location,
    DaftError,
>)
    ensures
        match location_problem(refs@, shuffle_id, count) {
            Some(text) => r matches Err(e) && e.is_internal_error(text),
            None => {
                &&& r is Ok
                &&& r->Ok_0.output == refs@[0]->Flight_0.map_output()
                &&& r->Ok_0.server@ == refs@[0]->Flight_0.server_address@
            },
        },
{
    if refs.len() == 0 {
        return Err(DaftError::internal_error("Shared map task returned no Flight output"));
    }
    let first: &FlightPartitionRef = match &refs[0] {
        PartitionRef::Flight(first) => first,
        PartitionRef::InMemory { .. } => {
            return Err(DaftError::internal_error("Shared map task returned no Flight output"));
        },
    };
    let input_id: u32 = input_id_from_ref(first);
    let mut seen: Vec<bool> = Vec::new();
    let mut k: usize = 0;
    while k < count
        invariant
            k <= count,
            seen@.len() == k,
            forall|p: int| 0 <= p < k ==> !#[trigger] seen@[p],
        decreases count - k,
    {
        seen.push(false);
        k = k + 1;
    }
    let mut i: usize = 0;
    while i < refs.len()
        invariant
            i <= refs@.len(),
            refs@.len() > 0,
            refs@[0] == PartitionRef::Flight(*first),
            input_id == first.input_id(),
            seen@.len() == count,
            forall|j: int|
                0 <= j < i ==> #[trigger] consistent_at(refs@, *first, shuffle_id, count, j),
            forall|p: int|
                0 <= p < count ==> (#[trigger] seen@[p] <==> exists|j: int|
                    0 <= j < i && (#[trigger] refs@[j])->Flight_0.partition_idx() == p),
        decreases refs@.len() - i,
    {
        let ghost before = seen@;
        let valid: bool = match &refs[i] {
            PartitionRef::InMemory { .. } => false,
            PartitionRef::Flight(r) => {
                let partition: usize = partition_idx_from_ref(r) as usize;
                if r.shuffle_id != shuffle_id || input_id_from_ref(r) != input_id || r.attempt
                    != first.attempt || r.server_address != first.server_address || partition
                    >= count || seen[partition] {
                    false
                } else {
                    seen.set(partition, true);
                    true
                }
            },
        };
        if !valid {
            proof {
                if consistent_at(refs@, *first, shuffle_id, count, i as int) {
                    let p = refs@[i as int]->Flight_0.partition_idx() as int;
                    assert(before[p]);
                    let j = choose|j: int|
                        0 <= j < i && (#[trigger] refs@[j])->Flight_0.partition_idx() == p;
                    assert(refs@[j]->Flight_0.partition_idx()
                        != refs@[i as int]->Flight_0.partition_idx());
                }
                assert(!consistent_at(refs@, refs@[0]->Flight_0, shuffle_id, count, i as int));
            }
            return Err(DaftError::internal_error("Inconsistent reconstructed map output"));
        }
        proof {
            let p0 = refs@[i as int]->Flight_0.partition_idx() as int;
            assert(!before[p0]);
            assert(consistent_at(refs@, *first, shuffle_id, count, i as int));
            assert forall|p: int| 0 <= p < count implies (#[trigger] seen@[p] <==> exists|j: int|
                0 <= j < i + 1 && (#[trigger] refs@[j])->Flight_0.partition_idx() == p) by {
                if p == p0 {
                    assert(refs@[i as int]->Flight_0.partition_idx() == p);
                } else {
                    assert(seen@[p] == before[p]);
                    if seen@[p] {
                        let j = choose|j: int|
                            0 <= j < i && (#[trigger] refs@[j])->Flight_0.partition_idx() == p;
                        assert(refs@[j]->Flight_0.partition_idx() == p);
                    }
                }
            }
        }
        i = i + 1;
    }
    if refs.len() != count {
        return Err(DaftError::internal_error("Incomplete reconstructed map output"));
    }
    Ok(
        Location {
            output: FlightMapOutput { input_id, attempt: first.attempt },
            server: first.server_address.clone(),
        },
    )
}

/// Names an output.
pub open spec fn output_key(shuffle_id: u64, output: FlightMapOutput) -> OutputKey {
    OutputKey { shuffle_id, input_id: output.input_id, attempt: output.attempt }
}

/// Names the output that a failure is about.
pub open spec fn failure_key(failure: ShuffleFetchFailure) -> OutputKey {
    OutputKey {
        shuffle_id: failure.shuffle_id,
        input_id: failure.input_id,
        attempt: failure.attempt,
    }
}

fn set_alias(aliases: &mut Vec<Alias>, key: OutputKey, producer: usize)
    requires
        distinct_keys(old(aliases)@),
    ensures
        distinct_keys(final(aliases)@),
        forall|k: OutputKey| #[trigger]
            resolved(final(aliases)@, k) == (if k == key {
                Some(producer)
            } else {
                resolved(old(aliases)@, k)
            }),
        forall|i: int|
            0 <= i < final(aliases)@.len() ==> (#[trigger] final(aliases)@[i]).producer == producer
                || old(aliases)@.contains(final(aliases)@[i]),
        final(aliases)@.len() == old(aliases)@.len() + if resolved(old(aliases)@, key) is Some {
            0int
        } else {
            1int
        },
{
    let ghost before = aliases@;
    let mut i: usize = 0;
    while i < aliases.len() && aliases[i].key != key
        invariant
            i <= aliases@.len(),
            aliases@ == before,
            forall|j: int| 0 <= j < i ==> (#[trigger] aliases@[j]).key != key,
        decreases aliases@.len() - i,
    {
        i = i + 1;
    }
    let alias = Alias { key, producer };
    if i < aliases.len() {
        aliases.set(i, alias);
    } else {
        aliases.push(alias);
    }
    proof {
        let after = aliases@;
        assert forall|a: int, b: int|
            #![trigger after[a], after[b]]
            0 <= a < b < after.len() implies after[a].key != after[b].key by {
            if a != i {
                assert(after[a] == before[a]);
            }
            if b != i {
                assert(after[b] == before[b]);
            }
            if a == i && i < before.len() {
                assert(before[i as int].key == key);
                assert(before[i as int].key != before[b].key);
            }
        }
        assert forall|k: OutputKey| #[trigger] resolved(after, k) == (if k == key {
            Some(producer)
        } else {
            resolved(before, k)
        }) by {
            lemma_resolved(before, k);
            lemma_resolved(after, k);
            if k == key {
                assert(after[i as int].key == k);
            } else if let Some(p) = resolved(before, k) {
                let x = choose|x: int|
                    0 <= x < before.len() && (#[trigger] before[x]).key == k && before[x].producer
                        == p;
                assert(after[x] == before[x]);
            } else {
                assert forall|x: int| 0 <= x < after.len() implies (#[trigger] after[x]).key
                    != k by {
                    if x != i {
                        assert(after[x] == before[x]);
                        if after[x].key == k {
                            assert(before[x].key == k);
                        }
                    }
                }
            }
        }
        lemma_resolved(before, key);
        assert forall|x: int| 0 <= x < after.len() implies (#[trigger] after[x]).producer
            == producer || before.contains(after[x]) by {
            if x != i {
                assert(after[x] == before[x]);
            }
        }
        if i < before.len() {
            assert(before[i as int].key == key);
        }
    }
}

impl ShuffleRecovery {
    /// Every output has a producer, no producer was run again more often than allowed, and no
    /// more reconstructions run than there are slots.
    pub open spec fn wf(&self) -> bool {
        &&& distinct_keys(self.aliases@)
        &&& forall|i: int|
            0 <= i < self.aliases@.len() ==> (#[trigger] self.aliases@[i]).producer
                < self.producers@.len()
        &&& forall|p: int|
            0 <= p < self.producers@.len() ==> (#[trigger] self.producers@[p]).attempts
                <= self.max_attempts
        &&& self.free_slots <= RECOVERY_SLOTS
    }

    /// The producer of an output, by number.
    pub open spec fn resolves(&self, key: OutputKey) -> Option<usize> {
        resolved(self.aliases@, key)
    }

    /// No outputs yet. A configured number of attempts that cannot be read counts as none.
    pub fn new(configured_attempts: Option<&str>) -> (r: ShuffleRecovery)
        ensures
            r.wf(),
            r.producers@.len() == 0,
            r.aliases@.len() == 0,
            r.version == 0,
            r.free_slots == RECOVERY_SLOTS,
            r.max_attempts == (match configured_attempts {
                Some(text) => match parsed(text@, u32::MAX as nat) {
                    Some(n) => n as u32,
                    None => DEFAULT_RECOVERY_ATTEMPTS,
                },
                None => DEFAULT_RECOVERY_ATTEMPTS,
            }),
    {
        ShuffleRecovery {
            producers: Vec::new(),
            aliases: Vec::new(),
            version: 0,
            free_slots: RECOVERY_SLOTS,
            max_attempts: retry_limit(configured_attempts, DEFAULT_RECOVERY_ATTEMPTS),
        }
    }

    proof fn lemma_producer_exists(&self, key: OutputKey)
        requires
            self.wf(),
        ensures
            self.resolves(key) matches Some(p) ==> p < self.producers@.len(),
    {
        lemma_resolved(self.aliases@, key);
        if let Some(p) = self.resolves(key) {
            let i = choose|i: int|
                0 <= i < self.aliases@.len() && (#[trigger] self.aliases@[i]).key == key
                    && self.aliases@[i].producer == p;
            assert(self.aliases@[i].producer < self.producers@.len());
        }
    }

    /// The producer of an output, by number.
    pub fn lookup(&self, key: OutputKey) -> (r: Option<usize>)
        requires
            self.wf(),
        ensures
            r == self.resolves(key),
            r matches Some(p) ==> p < self.producers@.len(),
    {
        let mut i: usize = 0;
        while i < self.aliases.len()
            invariant
                i <= self.aliases@.len(),
                self.wf(),
                forall|j: int| 0 <= j < i ==> (#[trigger] self.aliases@[j]).key != key,
            decreases self.aliases@.len() - i,
        {
            if self.aliases[i].key == key {
                proof {
                    lemma_resolved(self.aliases@, key);
                }
                return Some(self.aliases[i].producer);
            }
            i = i + 1;
        }
        proof {
            lemma_resolved(self.aliases@, key);
        }
        None
    }

    /// Whether `after` knows the task that wrote an output under the output's name, and nothing
    /// else has changed. An output that was known before keeps its producer.
    pub open spec fn registered(
        before: ShuffleRecovery,
        after: ShuffleRecovery,
        task: SwordfishTask,
        shuffle_id: u64,
        count: usize,
        first: FlightPartitionRef,
    ) -> bool {
        let key = output_key(shuffle_id, first.map_output());
        let p = before.producers@.len();
        let producer = after.producers@[p as int];
        &&& after.version == before.version
        &&& after.free_slots == before.free_slots
        &&& after.max_attempts == before.max_attempts
        &&& before.resolves(key) is Some ==> after == before
        &&& before.resolves(key) is None ==> {
            &&& after.producers@.len() == p + 1
            &&& after.producers@.drop_last() == before.producers@
            &&& producer.template == task
            &&& producer.selected.output == first.map_output()
            &&& producer.selected.server@ == first.server_address@
            &&& producer.attempts == 0
            &&& producer.terminal is None
            &&& !producer.repairing
            &&& producer.num_partitions == count
            &&& after.aliases@.len() == before.aliases@.len() + 1
            &&& forall|k: OutputKey| #[trigger]
                after.resolves(k) == (if k == key {
                    Some(p as usize)
                } else {
                    before.resolves(k)
                })
        }
    }

    /// Remembers what a task has written, where the task can run again for that. What is known
    /// already stays as it is.
    pub fn register(&mut self, task: &SwordfishTask, result: &Vec<PartitionRef>) -> (r: Result<
        (),
        DaftError,
    >)
        requires
            old(self).wf(),
        ensures
            final(self).wf(),
            match task.produces() {
                None => r is Ok && *final(self) == *old(self),
                Some((shuffle_id, count)) => match location_problem(result@, shuffle_id, count) {
                    Some(text) => {
                        &&& r matches Err(e) && e.is_internal_error(text)
                        &&& *final(self) == *old(self)
                    },
                    None => {
                        &&& r is Ok
                        &&& ShuffleRecovery::registered(
                            *old(self),
                            *final(self),
                            *task,
                            shuffle_id,
                            count,
                            result@[0]->Flight_0,
                        )
                    },
                },
            },
    {
        let (shuffle_id, count): (u64, usize) = match producer_spec(task) {
            Some(produced) => produced,
            None => {
                return Ok(());
            },
        };
        let location: Location = match output_location(result, shuffle_id, count) {
            Ok(location) => location,
            Err(e) => {
                return Err(e);
            },
        };
        let key = OutputKey {
            shuffle_id,
            input_id: location.output.input_id,
            attempt: location.output.attempt,
        };
        if self.lookup(key).is_some() {
            return Ok(());
        }
        let producer: usize = self.producers.len();
        self.producers.push(
            Producer {
                template: task.clone(),
                selected: location,
                attempts: 0,
                terminal: None,
                repairing: false,
                num_partitions: count,
            },
        );
        set_alias(&mut self.aliases, key, producer);
        proof {
            assert(self.producers@.drop_last() =~= old(self).producers@);
            assert forall|i: int| 0 <= i < self.aliases@.len() implies (
            #[trigger] self.aliases@[i]).producer < self.producers@.len() by {
                if self.aliases@[i].producer != producer {
                    let a = self.aliases@[i];
                    assert(old(self).aliases@.contains(a));
                    let j = choose|j: int| 0 <= j < old(self).aliases@.len() && old(self).aliases@[j] == a;
                    assert(old(self).aliases@[j].producer < producer);
                }
            }
            assert forall|p: int| 0 <= p < self.producers@.len() implies (
            #[trigger] self.producers@[p]).attempts <= self.max_attempts by {
                if p < producer {
                    assert(self.producers@[p] == old(self).producers@[p]);
                }
            }
        }
        Ok(())
    }
}

impl ShuffleRecovery {
    /// The output that stands for one that a consumer refers to: its replacement, where there
    /// is one.
    pub open spec fn current_output(&self, shuffle_id: u64, map: FlightMapOutput) -> FlightMapOutput {
        match self.resolves(output_key(shuffle_id, map)) {
            Some(p) => self.producers@[p as int].selected.output,
            None => map,
        }
    }

    /// The server that has the output that stands for one that a consumer refers to.
    pub open spec fn current_server(
        &self,
        shuffle_id: u64,
        map: FlightMapOutput,
        server: Seq<char>,
    ) -> Seq<char> {
        match self.resolves(output_key(shuffle_id, map)) {
            Some(p) => self.producers@[p as int].selected.server@,
            None => server,
        }
    }

    /// What stands for the first `m` of the outputs of one server and is on the server `name`.
    pub open spec fn bound_maps(
        &self,
        shuffle_id: u64,
        maps: Seq<FlightMapOutput>,
        server: Seq<char>,
        name: Seq<char>,
        m: int,
    ) -> Seq<FlightMapOutput>
        decreases m,
    {
        if m <= 0 {
            Seq::empty()
        } else {
            let before = self.bound_maps(shuffle_id, maps, server, name, m - 1);
            if self.current_server(shuffle_id, maps[m - 1], server) == name {
                before.push(self.current_output(shuffle_id, maps[m - 1]))
            } else {
                before
            }
        }
    }

    /// What stands for the outputs of the first `n` servers and is on the server `name`.
    pub open spec fn bound(
        &self,
        shuffle_id: u64,
        servers: Seq<ServerInputs>,
        name: Seq<char>,
        n: int,
    ) -> Seq<FlightMapOutput>
        decreases n,
    {
        if n <= 0 {
            Seq::empty()
        } else {
            self.bound(shuffle_id, servers, name, n - 1) + self.bound_maps(
                shuffle_id,
                servers[n - 1].outputs@,
                servers[n - 1].server@,
                name,
                servers[n - 1].outputs@.len() as int,
            )
        }
    }

    /// Whether `got` is `read` with each output replaced by what stands for it.
    pub open spec fn binds_read(
        &self,
        read: FlightShuffleReadInput,
        got: FlightShuffleReadInput,
    ) -> bool {
        &&& got.shuffle_id == read.shuffle_id
        &&& got.partition_idx == read.partition_idx
        &&& got.coalesce_ranges == read.coalesce_ranges
        &&& got.shared_root == read.shared_root
        &&& servers_wf(got.inputs_by_server@)
        &&& forall|name: Seq<char>| #[trigger]
            outputs_of(got.inputs_by_server@, name) == self.bound(
                read.shuffle_id,
                read.inputs_by_server@,
                name,
                read.inputs_by_server@.len() as int,
            )
    }

    /// Whether `got` is `input` with each output replaced by what stands for it.
    pub open spec fn binds_input(&self, input: TaskInput, got: TaskInput) -> bool {
        &&& got.node_id == input.node_id
        &&& match input.input {
            Input::FlightShuffle(reads) => {
                &&& got.input is FlightShuffle
                &&& got.input->FlightShuffle_0@.len() == reads@.len()
                &&& forall|i: int|
                    0 <= i < reads@.len() ==> self.binds_read(
                        reads@[i],
                        #[trigger] got.input->FlightShuffle_0@[i],
                    )
            },
            _ => got.input == input.input,
        }
    }

    fn bind_servers(&self, shuffle_id: u64, servers: &Vec<ServerInputs>) -> (out: Vec<ServerInputs>)
        requires
            self.wf(),
        ensures
            servers_wf(out@),
            forall|name: Seq<char>| #[trigger]
                outputs_of(out@, name) == self.bound(
                    shuffle_id,
                    servers@,
                    name,
                    servers@.len() as int,
                ),
    {
        let mut out: Vec<ServerInputs> = Vec::new();
        let mut n: usize = 0;
        while n < servers.len()
            invariant
                n <= servers@.len(),
                self.wf(),
                servers_wf(out@),
                forall|name: Seq<char>| #[trigger]
                    outputs_of(out@, name) == self.bound(shuffle_id, servers@, name, n as int),
            decreases servers@.len() - n,
        {
            let entry: &ServerInputs = &servers[n];
            let mut m: usize = 0;
            while m < entry.outputs.len()
                invariant
                    m <= entry.outputs@.len(),
                    n < servers@.len(),
                    *entry == servers@[n as int],
                    self.wf(),
                    servers_wf(out@),
                    forall|name: Seq<char>| #[trigger]
                        outputs_of(out@, name) == self.bound(shuffle_id, servers@, name, n as int)
                            + self.bound_maps(
                            shuffle_id,
                            entry.outputs@,
                            entry.server@,
                            name,
                            m as int,
                        ),
                decreases entry.outputs@.len() - m,
            {
                let map: FlightMapOutput = entry.outputs[m];
                let key = OutputKey { shuffle_id, input_id: map.input_id, attempt: map.attempt };
                let ghost before = out@;
                match self.lookup(key) {
                    Some(p) => {
                        let selected: &Location = &self.producers[p].selected;
                        add_output(&mut out, &selected.server, selected.output);
                    },
                    None => {
                        add_output(&mut out, &entry.server, map);
                    },
                }
                proof {
                    assert forall|name: Seq<char>| #[trigger] outputs_of(out@, name) == self.bound(
                        shuffle_id,
                        servers@,
                        name,
                        n as int,
                    ) + self.bound_maps(
                        shuffle_id,
                        entry.outputs@,
                        entry.server@,
                        name,
                        m + 1,
                    ) by {
                        let whole = self.bound(shuffle_id, servers@, name, n as int);
                        let part = self.bound_maps(
                            shuffle_id,
                            entry.outputs@,
                            entry.server@,
                            name,
                            m as int,
                        );
                        let current = self.current_output(shuffle_id, map);
                        assert(outputs_of(before, name) == whole + part);
                        if self.current_server(shuffle_id, map, entry.server@) == name {
                            assert((whole + part).push(current) =~= whole + part.push(current));
                        }
                    }
                }
                m = m + 1;
            }
            n = n + 1;
        }
        out
    }

    fn bind_reads(&self, reads: &Vec<FlightShuffleReadInput>) -> (out: Vec<FlightShuffleReadInput>)
        requires
            self.wf(),
        ensures
            out@.len() == reads@.len(),
            forall|i: int| 0 <= i < reads@.len() ==> self.binds_read(reads@[i], #[trigger] out@[i]),
    {
        let mut out: Vec<FlightShuffleReadInput> = Vec::new();
        let mut i: usize = 0;
        while i < reads.len()
            invariant
                i <= reads@.len(),
                self.wf(),
                out@.len() == i,
                forall|k: int| 0 <= k < i ==> self.binds_read(reads@[k], #[trigger] out@[k]),
            decreases reads@.len() - i,
        {
            let read: &FlightShuffleReadInput = &reads[i];
            let servers: Vec<ServerInputs> = self.bind_servers(
                read.shuffle_id,
                &read.inputs_by_server,
            );
            out.push(
                FlightShuffleReadInput {
                    shuffle_id: read.shuffle_id,
                    partition_idx: read.partition_idx,
                    coalesce_ranges: read.coalesce_ranges,
                    inputs_by_server: Arc::new(servers),
                    shared_root: match &read.shared_root {
                        Some(root) => Some(Arc::clone(root)),
                        None => None,
                    },
                },
            );
            i = i + 1;
        }
        out
    }

    /// Whether `got` is `task` with each output that it reads replaced by what stands for it. As
    /// long as nothing was replaced, the task stays as it is.
    pub open spec fn binds_task(&self, task: SwordfishTask, got: SwordfishTask) -> bool {
        &&& got.context == task.context
        &&& got.plan == task.plan
        &&& if self.version == 0 {
            got == task
        } else {
            &&& got.inputs@.len() == task.inputs@.len()
            &&& forall|i: int|
                0 <= i < task.inputs@.len() ==> self.binds_input(
                    task.inputs@[i],
                    #[trigger] got.inputs@[i],
                )
        }
    }

    /// The task with each output that it reads replaced by what stands for it.
    pub fn bind(&self, task: &SwordfishTask) -> (bound: SwordfishTask)
        requires
            self.wf(),
        ensures
            self.binds_task(*task, bound),
    {
        if self.version == 0 {
            return task.clone();
        }
        let mut inputs: Vec<TaskInput> = Vec::new();
        let mut i: usize = 0;
        while i < task.inputs.len()
            invariant
                i <= task.inputs@.len(),
                self.wf(),
                inputs@.len() == i,
                forall|k: int|
                    0 <= k < i ==> self.binds_input(task.inputs@[k], #[trigger] inputs@[k]),
            decreases task.inputs@.len() - i,
        {
            let given: &TaskInput = &task.inputs[i];
            let input: Input = match &given.input {
                Input::InMemory(refs) => Input::InMemory(Arc::clone(refs)),
                Input::FlightShuffle(reads) => Input::FlightShuffle(Arc::new(self.bind_reads(reads))),
                Input::ScanTasks => Input::ScanTasks,
                Input::GlobPaths => Input::GlobPaths,
            };
            inputs.push(TaskInput { node_id: given.node_id, input });
            i = i + 1;
        }
        SwordfishTask {
            context: task.context,
            plan: Arc::clone(&task.plan),
            inputs: Arc::new(inputs),
        }
    }
}

/// What follows a report of a lost output.
pub enum RepairStart {
    /// It cannot be reconstructed.
    Refused(DaftError),
    /// Someone is reconstructing it; the report is looked at again afterwards.
    Wait(usize),
    /// Consumers are directed to another output already.
    Replaced,
    /// The producer's task runs again, after the given outputs that wait for it.
    Reconstruct { producer: usize, ancestors: Vec<OutputKey> },
}

/// What is to be known of a report before its producer is looked at: it does not depend on
/// itself, nor through too many others.
pub open spec fn dependencies_allow(ancestors: Seq<OutputKey>, key: OutputKey) -> bool {
    !ancestors.contains(key) && ancestors.len() < MAX_RECOVERY_DEPTH
}

/// Whether the two differ in one producer at most.
pub open spec fn same_but(before: ShuffleRecovery, after: ShuffleRecovery, p: int) -> bool {
    &&& after.producers@ == before.producers@.update(p, after.producers@[p])
    &&& after.version == before.version
    &&& after.free_slots == before.free_slots
    &&& after.max_attempts == before.max_attempts
    &&& after.aliases == before.aliases
}

proof fn lemma_same_but_wf(before: ShuffleRecovery, after: ShuffleRecovery, p: int)
    requires
        before.wf(),
        0 <= p < before.producers@.len(),
        same_but(before, after, p),
        after.producers@[p].attempts <= before.max_attempts,
    ensures
        after.wf(),
{
    assert forall|q: int| 0 <= q < after.producers@.len() implies (
    #[trigger] after.producers@[q]).attempts <= after.max_attempts by {
        if q != p {
            assert(after.producers@[q] == before.producers@[q]);
        }
    }
}

impl ShuffleRecovery {
    /// Looks at a report of a lost output. Each producer has one budget of reconstructions for
    /// all its consumers; a late report of an output that was replaced uses none of it.
    pub fn begin_repair(&mut self, failure: &ShuffleFetchFailure, ancestors: &Vec<OutputKey>) -> (r:
        RepairStart)
        requires
            old(self).wf(),
        ensures
            final(self).wf(),
            ({
                let key = failure_key(*failure);
                if !dependencies_allow(ancestors@, key) {
                    &&& r matches RepairStart::Refused(e) && e.is_compute_error(
                        recovery_text(
                            *failure,
                            "cyclic or excessive reconstruction dependencies"@,
                        ),
                    )
                    &&& *final(self) == *old(self)
                } else {
                    match old(self).resolves(key) {
                        None => {
                            &&& r matches RepairStart::Refused(e) && e.is_compute_error(
                                recovery_text(
                                    *failure,
                                    "producer is not replayable from retained inputs; automatic stage rollback is not supported"@,
                                ),
                            )
                            &&& *final(self) == *old(self)
                        },
                        Some(p) => {
                            let producer = old(self).producers@[p as int];
                            let now = final(self).producers@[p as int];
                            if producer.repairing {
                                r == RepairStart::Wait(p) && *final(self) == *old(self)
                            } else if producer.selected.output.input_id != failure.input_id
                                || producer.selected.output.attempt != failure.attempt {
                                r is Replaced && *final(self) == *old(self)
                            } else if producer.terminal is Some {
                                &&& r matches RepairStart::Refused(e) && e.is_compute_error(
                                    recovery_text(*failure, producer.terminal->0@),
                                )
                                &&& *final(self) == *old(self)
                            } else if producer.attempts >= old(self).max_attempts {
                                &&& r matches RepairStart::Refused(e) && e.is_compute_error(
                                    recovery_text(
                                        *failure,
                                        "map reconstruction budget exhausted"@,
                                    ),
                                )
                                &&& same_but(*old(self), *final(self), p as int)
                                &&& now.terminal is Some
                                &&& now.terminal->0@ == "map reconstruction budget exhausted"@
                                &&& now == Producer { terminal: now.terminal, ..producer }
                            } else {
                                &&& r matches RepairStart::Reconstruct { producer: q, ancestors: a }
                                    && q == p && a@ == ancestors@.push(key)
                                &&& same_but(*old(self), *final(self), p as int)
                                &&& now == Producer {
                                    attempts: (producer.attempts + 1) as u32,
                                    repairing: true,
                                    ..producer
                                }
                            }
                        },
                    }
                }
            }),
    {
        let key = OutputKey {
            shuffle_id: failure.shuffle_id,
            input_id: failure.input_id,
            attempt: failure.attempt,
        };
        let mut chain: Vec<OutputKey> = Vec::new();
        let mut found: bool = false;
        let mut i: usize = 0;
        while i < ancestors.len()
            invariant
                i <= ancestors@.len(),
                chain@ == ancestors@.take(i as int),
                found == ancestors@.take(i as int).contains(key),
            decreases ancestors@.len() - i,
        {
            let ancestor: OutputKey = ancestors[i];
            chain.push(ancestor);
            proof {
                assert(ancestors@.take(i + 1) =~= ancestors@.take(i as int).push(ancestor));
                if found {
                    let j = choose|j: int| 0 <= j < i && ancestors@.take(i as int)[j] == key;
                    assert(ancestors@.take(i + 1)[j] == key);
                }
                if ancestor == key {
                    assert(ancestors@.take(i + 1)[i as int] == key);
                }
            }
            found = found || ancestor == key;
            i = i + 1;
        }
        assert(ancestors@.take(i as int) =~= ancestors@);
        if found || ancestors.len() >= MAX_RECOVERY_DEPTH {
            return RepairStart::Refused(
                recovery_error(failure, "cyclic or excessive reconstruction dependencies"),
            );
        }
        chain.push(key);
        let p: usize = match self.lookup(key) {
            Some(p) => p,
            None => {
                return RepairStart::Refused(
                    recovery_error(
                        failure,
                        "producer is not replayable from retained inputs; automatic stage rollback is not supported",
                    ),
                );
            },
        };
        if self.producers[p].repairing {
            return RepairStart::Wait(p);
        }
        if self.producers[p].selected.output.input_id != failure.input_id
            || self.producers[p].selected.output.attempt != failure.attempt {
            return RepairStart::Replaced;
        }
        match &self.producers[p].terminal {
            Some(reason) => {
                return RepairStart::Refused(recovery_error(failure, reason.as_str()));
            },
            None => {},
        }
        let ghost before = *self;
        if self.producers[p].attempts >= self.max_attempts {
            self.producers[p].terminal = Some(owned("map reconstruction budget exhausted"));
            proof {
                assert(self.producers@ =~= before.producers@.update(
                    p as int,
                    self.producers@[p as int],
                ));
                lemma_same_but_wf(before, *self, p as int);
            }
            return RepairStart::Refused(
                recovery_error(failure, "map reconstruction budget exhausted"),
            );
        }
        let attempts: u32 = self.producers[p].attempts;
        self.producers[p].attempts = attempts + 1;
        self.producers[p].repairing = true;
        proof {
            assert(self.producers@ =~= before.producers@.update(
                p as int,
                self.producers@[p as int],
            ));
            lemma_same_but_wf(before, *self, p as int);
        }
        RepairStart::Reconstruct { producer: p, ancestors: chain }
    }

    /// Gives up a reconstruction that was interrupted. Another consumer can start it again.
    pub fn abandon_repair(&mut self, p: usize)
        requires
            old(self).wf(),
            p < old(self).producers@.len(),
        ensures
            final(self).wf(),
            same_but(*old(self), *final(self), p as int),
            final(self).producers@[p as int] == (Producer {
                repairing: false,
                ..old(self).producers@[p as int]
            }),
    {
        let ghost before = *self;
        self.producers[p].repairing = false;
        proof {
            assert(self.producers@ =~= before.producers@.update(
                p as int,
                self.producers@[p as int],
            ));
            lemma_same_but_wf(before, *self, p as int);
        }
    }

    /// Whether `after` directs the consumers of a producer to a new output, and nothing else.
    pub open spec fn published(
        before: ShuffleRecovery,
        after: ShuffleRecovery,
        shuffle_id: u64,
        p: usize,
        output: FlightMapOutput,
        server: Seq<char>,
    ) -> bool {
        let now = after.producers@[p as int];
        &&& after.producers@ == before.producers@.update(p as int, now)
        &&& now.selected.output == output
        &&& now.selected.server@ == server
        &&& now == Producer {
            selected: now.selected,
            repairing: false,
            ..before.producers@[p as int]
        }
        &&& forall|k: OutputKey| #[trigger]
            after.resolves(k) == (if k == output_key(shuffle_id, output) {
                Some(p)
            } else {
                before.resolves(k)
            })
        &&& after.version == before.version.wrapping_add(1)
        &&& after.free_slots == before.free_slots
        &&& after.max_attempts == before.max_attempts
    }

    /// Takes the outcome of a reconstruction: the output of the task, nothing where it was
    /// cancelled, or its error, after which it is not run again.
    pub fn finish_repair(
        &mut self,
        failure: &ShuffleFetchFailure,
        p: usize,
        outcome: Result<Option<Vec<PartitionRef>>, DaftError>,
    ) -> (r: Result<(), DaftError>)
        requires
            old(self).wf(),
            p < old(self).producers@.len(),
        ensures
            final(self).wf(),
            ({
                let producer = old(self).producers@[p as int];
                let now = final(self).producers@[p as int];
                match outcome {
                    Ok(Some(refs)) => match location_problem(
                        refs@,
                        failure.shuffle_id,
                        producer.num_partitions,
                    ) {
                        Some(text) => {
                            &&& r matches Err(e) && e.is_internal_error(text)
                            &&& same_but(*old(self), *final(self), p as int)
                            &&& now == Producer { repairing: false, ..producer }
                        },
                        None => {
                            &&& r is Ok
                            &&& ShuffleRecovery::published(
                                *old(self),
                                *final(self),
                                failure.shuffle_id,
                                p,
                                refs@[0]->Flight_0.map_output(),
                                refs@[0]->Flight_0.server_address@,
                            )
                        },
                    },
                    Ok(None) => {
                        &&& r matches Err(e) && e.is_compute_error(
                            recovery_text(*failure, "reconstruction cancelled"@),
                        )
                        &&& same_but(*old(self), *final(self), p as int)
                        &&& now == Producer { repairing: false, ..producer }
                    },
                    Err(error) => {
                        &&& r == Err::<(), DaftError>(error)
                        &&& same_but(*old(self), *final(self), p as int)
                        &&& now.terminal is Some
                        &&& now.terminal->0@ == error.text()
                        &&& now == Producer {
                            repairing: false,
                            terminal: now.terminal,
                            ..producer
                        }
                    },
                }
            }),
    {
        self.abandon_repair(p);
        let ghost before = *self;
        match outcome {
            Ok(Some(refs)) => {
                let count: usize = self.producers[p].num_partitions;
                match output_location(&refs, failure.shuffle_id, count) {
                    Err(e) => Err(e),
                    Ok(replacement) => {
                        let key = OutputKey {
                            shuffle_id: failure.shuffle_id,
                            input_id: replacement.output.input_id,
                            attempt: replacement.output.attempt,
                        };
                        set_alias(&mut self.aliases, key, p);
                        self.producers[p].selected = replacement;
                        self.version = self.version.wrapping_add(1);
                        proof {
                            assert(self.producers@ =~= old(self).producers@.update(
                                p as int,
                                self.producers@[p as int],
                            ));
                            assert forall|i: int| 0 <= i < self.aliases@.len() implies (
                            #[trigger] self.aliases@[i]).producer < self.producers@.len() by {
                                if self.aliases@[i].producer != p {
                                    let a = self.aliases@[i];
                                    assert(before.aliases@.contains(a));
                                    let j = choose|j: int|
                                        0 <= j < before.aliases@.len() && before.aliases@[j] == a;
                                    assert(before.aliases@[j].producer < before.producers@.len());
                                }
                            }
                            assert forall|q: int| 0 <= q < self.producers@.len() implies (
                            #[trigger] self.producers@[q]).attempts <= self.max_attempts by {
                                assert(old(self).producers@[q].attempts <= self.max_attempts);
                            }
                        }
                        Ok(())
                    },
                }
            },
            Ok(None) => Err(recovery_error(failure, "reconstruction cancelled")),
            Err(error) => {
                self.producers[p].terminal = Some(error.to_text());
                proof {
                    assert(self.producers@ =~= old(self).producers@.update(
                        p as int,
                        self.producers@[p as int],
                    ));
                    lemma_same_but_wf(*old(self), *self, p as int);
                }
                Err(error)
            },
        }
    }

    /// Takes a slot for a reconstruction, if one is free.
    pub fn acquire_slot(&mut self) -> (b: bool)
        requires
            old(self).wf(),
        ensures
            final(self).wf(),
            b == (old(self).free_slots > 0),
            *final(self) == (ShuffleRecovery {
                free_slots: if b {
                    (old(self).free_slots - 1) as usize
                } else {
                    old(self).free_slots
                },
                ..*old(self)
            }),
    {
        if self.free_slots == 0 {
            return false;
        }
        self.free_slots = self.free_slots - 1;
        true
    }

    /// Gives a slot back. It is given back before dependencies are reconstructed, so that those
    /// cannot wait for it.
    pub fn release_slot(&mut self)
        requires
            old(self).wf(),
            old(self).free_slots < RECOVERY_SLOTS,
        ensures
            final(self).wf(),
            *final(self) == (ShuffleRecovery {
                free_slots: (old(self).free_slots + 1) as usize,
                ..*old(self)
            }),
    {
        self.free_slots = self.free_slots + 1;
    }
}

/// A task that is run until its inputs are there. Each attempt is bound, submitted, and where it
/// misses an output, that output is reconstructed before the next attempt.
#[derive(Debug)]
pub struct RecoveryRun {
    /// How many lost outputs were met.
    pub failures: u32,
}

/// What follows an attempt.
pub enum RunStep<O> {
    /// The run is over.
    Return(Result<Option<O>, DaftError>),
    /// The missed output is reconstructed, and the task runs again under a new number.
    Repair(ShuffleFetchFailure),
}

impl RecoveryRun {
    /// No attempt yet.
    pub fn new() -> (r: RecoveryRun)
        ensures
            r.failures == 0,
    {
        RecoveryRun { failures: 0 }
    }

    /// Whether another attempt is made: a cancelled run ends without a result.
    pub fn begin_attempt<O>(&self, cancelled: bool) -> (r: Option<RunStep<O>>)
        ensures
            cancelled ==> r == Some(RunStep::Return::<O>(Ok(None))),
            !cancelled ==> r is None,
    {
        if cancelled {
            Some(RunStep::Return(Ok(None)))
        } else {
            None
        }
    }

    /// Takes the outcome of an attempt. Besides the budget of each producer, the consumer has
    /// one of its own: it cannot meet new losses for ever.
    pub fn run<O>(&mut self, outcome: Result<Option<O>, DaftError>) -> (r: RunStep<O>)
        requires
            old(self).failures <= MAX_CONSUMER_FAILURES,
        ensures
            final(self).failures <= MAX_CONSUMER_FAILURES,
            match outcome {
                Ok(result) => r == RunStep::Return(Ok::<Option<O>, DaftError>(result))
                    && *final(self) == *old(self),
                Err(error) => match error.fetch_failure() {
                    None => r == RunStep::Return(Err::<Option<O>, DaftError>(error))
                        && *final(self) == *old(self),
                    Some(failure) => if old(self).failures == MAX_CONSUMER_FAILURES {
                        &&& r matches RunStep::Return(Err(e)) && e.is_compute_error(
                            recovery_text(failure, "consumer recovery budget exhausted"@),
                        )
                        &&& *final(self) == *old(self)
                    } else {
                        &&& r == RunStep::Repair::<O>(failure)
                        &&& final(self).failures == old(self).failures + 1
                    },
                },
            },
    {
        match outcome {
            Ok(result) => RunStep::Return(Ok(result)),
            Err(error) => match error.shuffle_fetch_failure() {
                None => RunStep::Return(Err(error)),
                Some(failure) => {
                    if self.failures == MAX_CONSUMER_FAILURES {
                        return RunStep::Return(
                            Err(recovery_error(&failure, "consumer recovery budget exhausted")),
                        );
                    }
                    self.failures = self.failures + 1;
                    RunStep::Repair(failure)
                },
            },
        }
    }
}

/// How the recovery of a consumer ended.
pub enum RecoveryEnd {
    /// The task was cancelled.
    Cancelled,
    /// It took too long.
    DeadlineExceeded,
    /// The task ran again, or an output could not be reconstructed.
    Finished(Result<Option<Vec<PartitionRef>>, DaftError>),
}

/// What follows the first attempt of a task.
pub enum FirstStep {
    /// The task is over.
    Return(Result<Option<Vec<PartitionRef>>, DaftError>),
    /// An output is missing. Only now the time for recovery begins to count.
    Recover(ShuffleFetchFailure),
}

/// Takes the outcome of the first attempt of a task.
pub fn first_outcome(outcome: Result<Option<Vec<PartitionRef>>, DaftError>) -> (r: FirstStep)
    ensures
        match outcome {
            Ok(result) => r == FirstStep::Return(Ok(result)),
            Err(error) => match error.fetch_failure() {
                None => r == FirstStep::Return(Err(error)),
                Some(failure) => r == FirstStep::Recover(failure),
            },
        },
{
    match outcome {
        Ok(result) => FirstStep::Return(Ok(result)),
        Err(error) => match error.shuffle_fetch_failure() {
            None => FirstStep::Return(Err(error)),
            Some(failure) => FirstStep::Recover(failure),
        },
    }
}

/// What a consumer returns once its recovery has ended.
pub fn recovered(failure: &ShuffleFetchFailure, end: RecoveryEnd) -> (r: Result<
    Option<Vec<PartitionRef>>,
    DaftError,
>)
    ensures
        match end {
            RecoveryEnd::Cancelled => r == Ok::<Option<Vec<PartitionRef>>, DaftError>(None),
            RecoveryEnd::DeadlineExceeded => r matches Err(e) && e.is_compute_error(
                recovery_text(*failure, "recovery deadline exceeded"@),
            ),
            RecoveryEnd::Finished(outcome) => r == outcome,
        },
{
    match end {
        RecoveryEnd::Cancelled => Ok(None),
        RecoveryEnd::DeadlineExceeded => Err(
            recovery_error(failure, "recovery deadline exceeded"),
        ),
        RecoveryEnd::Finished(outcome) => outcome,
    }
}

/// A task that is submitted, with those who are to hear of its end.
#[derive(Debug)]
pub struct SubmittedTask<N> {
    /// Its first execution.
    pub first: SwordfishTask,
    /// Whether what it misses is reconstructed, and it runs again then.
    pub recovered: bool,
    /// Who hears of the end of the first execution.
    pub with_first: Vec<N>,
    /// Who hears of the end of the task, however often it runs.
    pub at_the_end: Vec<N>,
}

impl ShuffleRecovery {
    /// Submits a task. The first execution of every task reads replacements where there are any.
    /// A task under recovery may run more than once, so that nobody hears of its executions, only
    /// of its end.
    pub fn submit<N>(&self, task: &SwordfishTask, notifications: Vec<N>) -> (s: SubmittedTask<N>)
        requires
            self.wf(),
        ensures
            self.binds_task(*task, s.first),
            s.recovered == (self.max_attempts != 0 && task.replayable(false)),
            s.recovered ==> s.with_first@.len() == 0 && s.at_the_end == notifications,
            !s.recovered ==> s.with_first == notifications && s.at_the_end@.len() == 0,
    {
        let first: SwordfishTask = self.bind(task);
        if self.max_attempts != 0 && task_replayable(task, false) {
            SubmittedTask {
                first,
                recovered: true,
                with_first: Vec::new(),
                at_the_end: notifications,
            }
        } else {
            SubmittedTask {
                first,
                recovered: false,
                with_first: notifications,
                at_the_end: Vec::new(),
            }
        }
    }

    /// Takes what a task under recovery returns in the end, and remembers what it has written.
    pub fn complete(
        &mut self,
        task: &SwordfishTask,
        result: Result<Option<Vec<PartitionRef>>, DaftError>,
    ) -> (r: Result<Option<Vec<PartitionRef>>, DaftError>)
        requires
            old(self).wf(),
        ensures
            final(self).wf(),
            match result {
                Ok(Some(refs)) => match task.produces() {
                    None => r == result && *final(self) == *old(self),
                    Some((shuffle_id, count)) => match location_problem(refs@, shuffle_id, count) {
                        Some(text) => {
                            &&& r matches Err(e) && e.is_internal_error(text)
                            &&& *final(self) == *old(self)
                        },
                        None => {
                            &&& r == result
                            &&& ShuffleRecovery::registered(
                                *old(self),
                                *final(self),
                                *task,
                                shuffle_id,
                                count,
                                refs@[0]->Flight_0,
                            )
                        },
                    },
                },
                _ => r == result && *final(self) == *old(self),
            },
    {
        match result {
            Ok(Some(refs)) => match self.register(task, &refs) {
                Ok(_) => Ok(Some(refs)),
                Err(e) => Err(e),
            },
            Ok(None) => Ok(None),
            Err(e) => Err(e),
        }
    }
}

/// Once an output is replaced, a consumer that refers to the lost output, or to any other name
/// of its producer, is directed to the replacement; consumers of other producers are not
/// affected.
pub proof fn consumers_are_redirected(
    before: ShuffleRecovery,
    after: ShuffleRecovery,
    shuffle_id: u64,
    p: usize,
    output: FlightMapOutput,
    server: Seq<char>,
    consumer_shuffle: u64,
    map: FlightMapOutput,
    old_server: Seq<char>,
)
    requires
        before.wf(),
        0 <= p < before.producers@.len(),
        ShuffleRecovery::published(before, after, shuffle_id, p, output, server),
        output_key(consumer_shuffle, map) != output_key(shuffle_id, output),
    ensures
        before.resolves(output_key(consumer_shuffle, map)) == Some(p) ==> {
            &&& after.current_output(consumer_shuffle, map) == output
            &&& after.current_server(consumer_shuffle, map, old_server) == server
        },
        before.resolves(output_key(consumer_shuffle, map)) != Some(p) ==> {
            &&& after.current_output(consumer_shuffle, map) == before.current_output(
                consumer_shuffle,
                map,
            )
            &&& after.current_server(consumer_shuffle, map, old_server) == before.current_server(
                consumer_shuffle,
                map,
                old_server,
            )
        },
{
    let key = output_key(consumer_shuffle, map);
    assert(after.resolves(key) == before.resolves(key));
    before.lemma_producer_exists(key);
    if let Some(q) = before.resolves(key) {
        if q != p {
            assert(after.producers@[q as int] == before.producers@[q as int]);
        }
    }
}

/// A replacement goes by a name of its own, which leads to it.
pub proof fn replacements_resolve(
    before: ShuffleRecovery,
    after: ShuffleRecovery,
    shuffle_id: u64,
    p: usize,
    output: FlightMapOutput,
    server: Seq<char>,
)
    requires
        before.wf(),
        0 <= p < before.producers@.len(),
        ShuffleRecovery::published(before, after, shuffle_id, p, output, server),
    ensures
        after.current_output(shuffle_id, output) == output,
        after.current_server(shuffle_id, output, server) == server,
{
    assert(after.resolves(output_key(shuffle_id, output)) == Some(p));
}

proof fn lemma_bound_maps_has(
    recovery: ShuffleRecovery,
    shuffle_id: u64,
    maps: Seq<FlightMapOutput>,
    server: Seq<char>,
    m: int,
    at: int,
)
    requires
        0 <= at < m <= maps.len(),
    ensures
        recovery.bound_maps(
            shuffle_id,
            maps,
            server,
            recovery.current_server(shuffle_id, maps[at], server),
            m,
        ).contains(recovery.current_output(shuffle_id, maps[at])),
    decreases m,
{
    let name = recovery.current_server(shuffle_id, maps[at], server);
    let whole = recovery.bound_maps(shuffle_id, maps, server, name, m);
    let before = recovery.bound_maps(shuffle_id, maps, server, name, m - 1);
    if at == m - 1 {
        assert(whole[before.len() as int] == recovery.current_output(shuffle_id, maps[at]));
    } else {
        lemma_bound_maps_has(recovery, shuffle_id, maps, server, m - 1, at);
        let k = choose|k: int|
            0 <= k < before.len() && before[k] == recovery.current_output(shuffle_id, maps[at]);
        assert(whole[k] == before[k]);
    }
}

/// Binding loses nothing: what stands for each output that a consumer refers to is read from
/// the server that has it.
pub proof fn binding_loses_nothing(
    recovery: ShuffleRecovery,
    shuffle_id: u64,
    servers: Seq<ServerInputs>,
    n: int,
    s: int,
    m: int,
)
    requires
        0 <= s < n <= servers.len(),
        0 <= m < servers[s].outputs@.len(),
    ensures
        recovery.bound(
            shuffle_id,
            servers,
            recovery.current_server(shuffle_id, servers[s].outputs@[m], servers[s].server@),
            n,
        ).contains(recovery.current_output(shuffle_id, servers[s].outputs@[m])),
    decreases n,
{
    let map = servers[s].outputs@[m];
    let name = recovery.current_server(shuffle_id, map, servers[s].server@);
    let wanted = recovery.current_output(shuffle_id, map);
    let whole = recovery.bound(shuffle_id, servers, name, n);
    let before = recovery.bound(shuffle_id, servers, name, n - 1);
    let last = recovery.bound_maps(
        shuffle_id,
        servers[n - 1].outputs@,
        servers[n - 1].server@,
        name,
        servers[n - 1].outputs@.len() as int,
    );
    if s == n - 1 {
        lemma_bound_maps_has(
            recovery,
            shuffle_id,
            servers[s].outputs@,
            servers[s].server@,
            servers[s].outputs@.len() as int,
            m,
        );
        let k = choose|k: int| 0 <= k < last.len() && last[k] == wanted;
        assert(whole[before.len() + k] == wanted);
    } else {
        binding_loses_nothing(recovery, shuffle_id, servers, n - 1, s, m);
        let k = choose|k: int| 0 <= k < before.len() && before[k] == wanted;
        assert(whole[k] == wanted);
    }
}

/// A name leads to the producer that it was given, and a name that was never given to none.
pub proof fn names_lead_to_their_producer(aliases: Seq<Alias>, i: int, key: OutputKey)
    requires
        distinct_keys(aliases),
    ensures
        0 <= i < aliases.len() ==> resolved(aliases, aliases[i].key) == Some(aliases[i].producer),
        (forall|j: int| 0 <= j < aliases.len() ==> (#[trigger] aliases[j]).key != key) ==> resolved(
            aliases,
            key,
        ) is None,
{
    lemma_resolved(aliases, key);
    if 0 <= i < aliases.len() {
        lemma_resolved(aliases, aliases[i].key);
    }
}

/// Outputs have one name only if they are of one shuffle, one map task and one attempt; and a
/// report of a lost output names that output.
pub proof fn outputs_have_names_of_their_own(
    first: u64,
    one: FlightMapOutput,
    second: u64,
    other: FlightMapOutput,
    failure: ShuffleFetchFailure,
)
    ensures
        output_key(first, one) == output_key(second, other) <==> first == second && one.input_id
            == other.input_id && one.attempt == other.attempt,
        failure_key(failure) == output_key(first, one) <==> failure.shuffle_id == first
            && failure.input_id == one.input_id && failure.attempt == one.attempt,
{
}

/// Partitions are the whole output of one map task exactly where there are as many as expected,
/// each of the shuffle, of one attempt of one map task and on one server, and each at a place of
/// its own among those expected.
pub proof fn outputs_are_whole(refs: Seq<PartitionRef>, shuffle_id: u64, count: usize)
    ensures
        location_problem(refs, shuffle_id, count) is None <==> {
            &&& refs.len() > 0
            &&& refs.len() == count
            &&& forall|i: int|
                0 <= i < refs.len() ==> {
                    &&& (#[trigger] refs[i]) is Flight
                    &&& refs[i]->Flight_0.shuffle_id == shuffle_id
                    &&& refs[i]->Flight_0.input_id() == refs[0]->Flight_0.input_id()
                    &&& refs[i]->Flight_0.attempt == refs[0]->Flight_0.attempt
                    &&& refs[i]->Flight_0.server_address@ == refs[0]->Flight_0.server_address@
                    &&& refs[i]->Flight_0.partition_idx() < count
                }
            &&& forall|i: int, j: int|
                #![trigger refs[i], refs[j]]
                0 <= j < i < refs.len() ==> refs[i]->Flight_0.partition_idx()
                    != refs[j]->Flight_0.partition_idx()
        },
        refs.len() == 0 || refs[0] is InMemory ==> location_problem(refs, shuffle_id, count) == Some(
            "Shared map task returned no Flight output"@,
        ),
{
    if location_problem(refs, shuffle_id, count) is None {
        assert forall|i: int| 0 <= i < refs.len() implies {
            &&& (#[trigger] refs[i]) is Flight
            &&& refs[i]->Flight_0.shuffle_id == shuffle_id
            &&& refs[i]->Flight_0.input_id() == refs[0]->Flight_0.input_id()
            &&& refs[i]->Flight_0.attempt == refs[0]->Flight_0.attempt
            &&& refs[i]->Flight_0.server_address@ == refs[0]->Flight_0.server_address@
            &&& refs[i]->Flight_0.partition_idx() < count
        } by {
            assert(consistent_at(refs, refs[0]->Flight_0, shuffle_id, count, i));
        }
        assert forall|i: int, j: int|
            #![trigger refs[i], refs[j]]
            0 <= j < i < refs.len() implies refs[i]->Flight_0.partition_idx()
            != refs[j]->Flight_0.partition_idx() by {
            assert(consistent_at(refs, refs[0]->Flight_0, shuffle_id, count, i));
        }
    } else if refs.len() > 0 && refs[0] is Flight && exists|i: int|
        0 <= i < refs.len() && !#[trigger] consistent_at(
            refs,
            refs[0]->Flight_0,
            shuffle_id,
            count,
            i,
        ) {
        let i = choose|i: int|
            0 <= i < refs.len() && !#[trigger] consistent_at(
                refs,
                refs[0]->Flight_0,
                shuffle_id,
                count,
                i,
            );
        if refs[i] is Flight && exists|j: int|
            0 <= j < i && (#[trigger] refs[j])->Flight_0.partition_idx()
                == refs[i]->Flight_0.partition_idx() {
            let j = choose|j: int|
                0 <= j < i && (#[trigger] refs[j])->Flight_0.partition_idx()
                    == refs[i]->Flight_0.partition_idx();
            assert(refs[j]->Flight_0.partition_idx() == refs[i]->Flight_0.partition_idx());
        }
    }
}

/// What a task has written can be found from then on, under its name, with the task that writes
/// it again; and what was known before is known as before.
pub proof fn written_outputs_are_remembered(
    before: ShuffleRecovery,
    after: ShuffleRecovery,
    task: SwordfishTask,
    shuffle_id: u64,
    count: usize,
    first: FlightPartitionRef,
    other: OutputKey,
    q: int,
)
    requires
        before.wf(),
        before.producers@.len() < usize::MAX,
        ShuffleRecovery::registered(before, after, task, shuffle_id, count, first),
    ensures
        ({
            let key = OutputKey {
                shuffle_id,
                input_id: first.input_id(),
                attempt: first.attempt,
            };
            &&& after.resolves(key) is Some
            &&& before.resolves(key) is Some ==> after == before
            &&& before.resolves(key) is None ==> {
                let producer = after.producers@[after.resolves(key)->0 as int];
                &&& after.resolves(key)->0 == before.producers@.len()
                &&& after.producers@.len() == before.producers@.len() + 1
                &&& 0 <= q < before.producers@.len() ==> after.producers@[q] == before.producers@[q]
                &&& after.aliases@.len() == before.aliases@.len() + 1
                &&& producer.template == task
                &&& producer.selected.output.input_id == first.input_id()
                &&& producer.selected.output.attempt == first.attempt
                &&& producer.selected.server@ == first.server_address@
                &&& producer.attempts == 0
                &&& producer.terminal is None
                &&& !producer.repairing
                &&& producer.num_partitions == count
            }
            &&& other != key ==> after.resolves(other) == before.resolves(other)
            &&& after.version == before.version
            &&& after.free_slots == before.free_slots
            &&& after.max_attempts == before.max_attempts
        }),
{
    if 0 <= q < before.producers@.len() && before.resolves(output_key(shuffle_id, first.map_output()))
        is None {
        assert(after.producers@.drop_last()[q] == after.producers@[q]);
    }
}

/// A consumer reads the output that its producer has now, on the server that has it; an output
/// without a producer is read as it is.
pub proof fn consumers_read_current_outputs(
    recovery: ShuffleRecovery,
    shuffle_id: u64,
    map: FlightMapOutput,
    server: Seq<char>,
)
    ensures
        ({
            let key = OutputKey { shuffle_id, input_id: map.input_id, attempt: map.attempt };
            &&& recovery.resolves(key) matches Some(p) ==> {
                &&& recovery.current_output(shuffle_id, map)
                    == recovery.producers@[p as int].selected.output
                &&& recovery.current_server(shuffle_id, map, server)
                    == recovery.producers@[p as int].selected.server@
            }
            &&& recovery.resolves(key) is None ==> {
                &&& recovery.current_output(shuffle_id, map) == map
                &&& recovery.current_server(shuffle_id, map, server) == server
            }
        }),
{
}

proof fn lemma_bound_maps_from(
    recovery: ShuffleRecovery,
    shuffle_id: u64,
    maps: Seq<FlightMapOutput>,
    server: Seq<char>,
    name: Seq<char>,
    m: int,
    k: int,
) -> (at: int)
    requires
        0 <= m <= maps.len(),
        0 <= k < recovery.bound_maps(shuffle_id, maps, server, name, m).len(),
    ensures
        0 <= at < m,
        recovery.current_server(shuffle_id, maps[at], server) == name,
        recovery.current_output(shuffle_id, maps[at]) == recovery.bound_maps(
            shuffle_id,
            maps,
            server,
            name,
            m,
        )[k],
    decreases m,
{
    if m <= 0 {
        0
    } else if k < recovery.bound_maps(shuffle_id, maps, server, name, m - 1).len() {
        lemma_bound_maps_from(recovery, shuffle_id, maps, server, name, m - 1, k)
    } else {
        m - 1
    }
}

/// Binding adds nothing: what is read from a server stands for an output that the consumer
/// refers to, and that server has it.
pub proof fn binding_adds_nothing(
    recovery: ShuffleRecovery,
    shuffle_id: u64,
    servers: Seq<ServerInputs>,
    name: Seq<char>,
    n: int,
    k: int,
) -> (at: (int, int))
    requires
        0 <= n <= servers.len(),
        0 <= k < recovery.bound(shuffle_id, servers, name, n).len(),
    ensures
        0 <= at.0 < n,
        0 <= at.1 < servers[at.0].outputs@.len(),
        recovery.current_server(
            shuffle_id,
            servers[at.0].outputs@[at.1],
            servers[at.0].server@,
        ) == name,
        recovery.current_output(shuffle_id, servers[at.0].outputs@[at.1]) == recovery.bound(
            shuffle_id,
            servers,
            name,
            n,
        )[k],
    decreases n,
{
    if n <= 0 {
        (0, 0)
    } else {
        let before = recovery.bound(shuffle_id, servers, name, n - 1);
        if k < before.len() {
            binding_adds_nothing(recovery, shuffle_id, servers, name, n - 1, k)
        } else {
            let last = servers[n - 1];
            let m = lemma_bound_maps_from(
                recovery,
                shuffle_id,
                last.outputs@,
                last.server@,
                name,
                last.outputs@.len() as int,
                k - before.len(),
            );
            (n - 1, m)
        }
    }
}

/// A bound task is the same task on the same node plan. What it reads of a shuffle is, output by
/// output, what stands for what it was to read; everything else it reads stays as it is, and so
/// does the whole task as long as nothing was replaced.
pub proof fn bound_tasks_read_what_stands_for_their_inputs(
    recovery: ShuffleRecovery,
    task: SwordfishTask,
    got: SwordfishTask,
    i: int,
    r: int,
    s: int,
    m: int,
)
    requires
        recovery.binds_task(task, got),
    ensures
        got.context == task.context,
        got.plan == task.plan,
        got.inputs@.len() == task.inputs@.len(),
        recovery.version == 0 ==> got == task,
        recovery.version != 0 && 0 <= i < task.inputs@.len() ==> {
            let input = task.inputs@[i];
            let bound = got.inputs@[i];
            &&& bound.node_id == input.node_id
            &&& !(input.input is FlightShuffle) ==> bound.input == input.input
            &&& input.input is FlightShuffle ==> {
                let reads = input.input->FlightShuffle_0@;
                let now = bound.input->FlightShuffle_0@;
                &&& bound.input is FlightShuffle
                &&& now.len() == reads.len()
                &&& 0 <= r < reads.len() ==> {
                    &&& now[r].shuffle_id == reads[r].shuffle_id
                    &&& now[r].partition_idx == reads[r].partition_idx
                    &&& now[r].coalesce_ranges == reads[r].coalesce_ranges
                    &&& now[r].shared_root == reads[r].shared_root
                    &&& servers_wf(now[r].inputs_by_server@)
                    &&& 0 <= s < reads[r].inputs_by_server@.len() && 0 <= m
                        < reads[r].inputs_by_server@[s].outputs@.len() ==> outputs_of(
                        now[r].inputs_by_server@,
                        recovery.current_server(
                            reads[r].shuffle_id,
                            reads[r].inputs_by_server@[s].outputs@[m],
                            reads[r].inputs_by_server@[s].server@,
                        ),
                    ).contains(
                        recovery.current_output(
                            reads[r].shuffle_id,
                            reads[r].inputs_by_server@[s].outputs@[m],
                        ),
                    )
                }
            }
        },
{
    if recovery.version != 0 && 0 <= i < task.inputs@.len() {
        assert(recovery.binds_input(task.inputs@[i], got.inputs@[i]));
        if task.inputs@[i].input is FlightShuffle {
            let reads = task.inputs@[i].input->FlightShuffle_0@;
            let now = got.inputs@[i].input->FlightShuffle_0@;
            if 0 <= r < reads.len() {
                assert(recovery.binds_read(reads[r], now[r]));
                let servers = reads[r].inputs_by_server@;
                if 0 <= s < servers.len() && 0 <= m < servers[s].outputs@.len() {
                    binding_loses_nothing(
                        recovery,
                        reads[r].shuffle_id,
                        servers,
                        servers.len() as int,
                        s,
                        m,
                    );
                }
            }
        }
    }
}

/// An output is not reconstructed for its own sake, nor behind sixteen others.
pub proof fn reconstructions_depend_on_few_others(ancestors: Seq<OutputKey>, key: OutputKey)
    ensures
        dependencies_allow(ancestors, key) <==> ancestors.len() < 16 && forall|i: int|
            0 <= i < ancestors.len() ==> #[trigger] ancestors[i] != key,
        dependencies_allow(ancestors, key) ==> !dependencies_allow(ancestors.push(key), key),
{
    if dependencies_allow(ancestors, key) {
        assert forall|i: int| 0 <= i < ancestors.len() implies #[trigger] ancestors[i] != key by {
            assert(ancestors.contains(ancestors[i]));
        }
        assert(ancestors.push(key)[ancestors.len() as int] == key);
    }
}

/// A change of one producer leaves all others, all names and all limits as they are.
pub proof fn other_producers_stay(
    before: ShuffleRecovery,
    after: ShuffleRecovery,
    p: int,
    q: int,
    key: OutputKey,
)
    requires
        same_but(before, after, p),
        0 <= p < before.producers@.len(),
        0 <= q < before.producers@.len(),
        q != p,
    ensures
        after.producers@.len() == before.producers@.len(),
        after.producers@[q] == before.producers@[q],
        after.resolves(key) == before.resolves(key),
        after.version == before.version,
        after.free_slots == before.free_slots,
        after.max_attempts == before.max_attempts,
{
}

/// A replacement is published with its producer: it is not being repaired any more, counts the
/// attempts that it has taken, and all that was bound before is bound anew.
pub proof fn replacements_are_published(
    before: ShuffleRecovery,
    after: ShuffleRecovery,
    shuffle_id: u64,
    p: usize,
    output: FlightMapOutput,
    server: Seq<char>,
    q: int,
)
    requires
        0 <= p < before.producers@.len(),
        0 <= q < before.producers@.len(),
        before.version < u64::MAX,
        ShuffleRecovery::published(before, after, shuffle_id, p, output, server),
    ensures
        after.producers@.len() == before.producers@.len(),
        after.producers@[p as int].selected.output == output,
        after.producers@[p as int].selected.server@ == server,
        !after.producers@[p as int].repairing,
        after.producers@[p as int].attempts == before.producers@[p as int].attempts,
        after.producers@[p as int].terminal == before.producers@[p as int].terminal,
        after.producers@[p as int].template == before.producers@[p as int].template,
        after.producers@[p as int].num_partitions == before.producers@[p as int].num_partitions,
        q != p ==> after.producers@[q] == before.producers@[q],
        after.version == before.version + 1,
        after.free_slots == before.free_slots,
        after.max_attempts == before.max_attempts,
{
}

/// No more than four reconstructions run at a time, and no producer is run again more often than
/// allowed.
pub proof fn reconstructions_are_bounded(recovery: ShuffleRecovery, p: int)
    requires
        recovery.wf(),
        0 <= p < recovery.producers@.len(),
    ensures
        recovery.free_slots <= 4,
        recovery.producers@[p].attempts <= recovery.max_attempts,
{
}

} // verus!
