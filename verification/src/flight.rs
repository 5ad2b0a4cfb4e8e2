//! Folding the outputs of map tasks into the inputs of reduce tasks.
use std::collections::HashSet;
use std::ops::Range;
use std::sync::Arc;

use vstd::prelude::*;

use crate::aqe::{coalesce_partitions, coalesced, coalescing_covers_all_buckets, tiles};
use crate::error::DaftError;
use crate::sort::{reversed, sort, sorted};
use crate::text::{
    decimal, hexadecimal, owned, precedes, precedes_is_strict_order, push_decimal,
    push_hexadecimal, text_precedes,
};

verus! {

broadcast use vstd::std_specs::hash::group_hash_axioms;

/// Fragments below this size count as small, in bytes.
pub const SMALL_FRAGMENT_BYTES: usize = 65_536;

/// One partition of the output of one map task, on the server that has it.
#[derive(Debug)]
pub struct FlightPartitionRef {
    pub shuffle_id: u64,
    pub server_address: String,
    /// The map input in the high half, the partition in the low half.
    pub partition_ref_id: u64,
    pub attempt: u64,
    pub num_rows: usize,
    pub size_bytes: usize,
}

/// A partition that a stage has produced.
#[derive(Debug)]
pub enum PartitionRef {
    Flight(FlightPartitionRef),
    /// A partition in memory.
    InMemory { num_rows: usize, size_bytes: usize },
}

/// Which attempt of which map input produced an output.
#[derive(Clone, Copy, Debug, PartialEq, Eq, Structural)]
pub struct FlightMapOutput {
    pub input_id: u32,
    pub attempt: u64,
}

/// The map outputs on one server, in the order in which they came.
#[derive(Debug)]
pub struct ServerInputs {
    pub server: String,
    pub outputs: Vec<FlightMapOutput>,
}

/// What a reduce task reads for one partition.
#[derive(Debug)]
pub struct FlightShuffleReadInput {
    pub shuffle_id: u64,
    pub partition_idx: u32,
    pub coalesce_ranges: bool,
    pub inputs_by_server: Arc<Vec<ServerInputs>>,
    pub shared_root: Option<Arc<String>>,
}

/// The error for a partition that did not come out of a flight write.
pub open spec fn not_flight_text() -> Seq<char> {
    "Flight shuffle read expected a flight partition ref, got a partition ref that did not come from a flight write."@
}

/// Whether the partition came out of a flight write.
pub fn is_flight_ref(partition: &PartitionRef) -> (b: bool)
    ensures
        b == (*partition is Flight),
{
    match partition {
        PartitionRef::Flight(_) => true,
        PartitionRef::InMemory { .. } => false,
    }
}

/// The partition as one that came out of a flight write.
pub fn as_flight_ref(partition: &PartitionRef) -> (r: Result<&FlightPartitionRef, DaftError>)
    ensures
        match *partition {
            PartitionRef::Flight(f) => r matches Ok(got) && *got == f,
            PartitionRef::InMemory { num_rows: _, size_bytes: _ } => r matches Err(e)
                && e.is_internal_error(not_flight_text()),
        },
{
    match partition {
        PartitionRef::Flight(f) => Ok(f),
        PartitionRef::InMemory { .. } => Err(
            DaftError::internal_error(
                "Flight shuffle read expected a flight partition ref, got a partition ref that did not come from a flight write.",
            ),
        ),
    }
}

impl FlightPartitionRef {
    /// The map input that the partition belongs to.
    pub open spec fn input_id(&self) -> u32 {
        (self.partition_ref_id / 0x1_0000_0000) as u32
    }

    /// Which partition of its map input this is.
    pub open spec fn partition_idx(&self) -> u32 {
        (self.partition_ref_id % 0x1_0000_0000) as u32
    }

    /// Which attempt of which map input produced the partition.
    pub open spec fn map_output(&self) -> FlightMapOutput {
        FlightMapOutput { input_id: self.input_id(), attempt: self.attempt }
    }
}

/// The map input that a partition belongs to.
pub fn input_id_from_ref(f: &FlightPartitionRef) -> (id: u32)
    ensures
        id == f.input_id(),
{
    let x: u64 = f.partition_ref_id;
    assert(x >> 32 == x / 0x1_0000_0000) by (bit_vector);
    (f.partition_ref_id >> 32) as u32
}

/// Which partition of its map input a partition is.
pub fn partition_idx_from_ref(f: &FlightPartitionRef) -> (idx: u32)
    ensures
        idx == f.partition_idx(),
{
    let x: u64 = f.partition_ref_id;
    assert(x & 0xFFFF_FFFF == x % 0x1_0000_0000) by (bit_vector);
    (f.partition_ref_id & 0xFFFF_FFFF) as u32
}

/// Which attempt of which map input produced a partition.
pub fn map_output_from_ref(f: &FlightPartitionRef) -> (m: FlightMapOutput)
    ensures
        m == f.map_output(),
{
    FlightMapOutput { input_id: input_id_from_ref(f), attempt: f.attempt }
}

/// The outputs on one server.
pub open spec fn outputs_of(servers: Seq<ServerInputs>, name: Seq<char>) -> Seq<FlightMapOutput>
    decreases servers.len(),
{
    if servers.len() == 0 {
        Seq::empty()
    } else if servers.last().server@ == name {
        servers.last().outputs@
    } else {
        outputs_of(servers.drop_last(), name)
    }
}

/// Whether servers stand in the order of their names, each once and with an output.
pub open spec fn servers_wf(servers: Seq<ServerInputs>) -> bool {
    &&& forall|i: int, j: int|
        #![trigger servers[i], servers[j]]
        0 <= i < j < servers.len() ==> precedes(servers[i].server@, servers[j].server@)
    &&& forall|i: int| 0 <= i < servers.len() ==> (#[trigger] servers[i]).outputs@.len() > 0
}

proof fn lemma_outputs_of(servers: Seq<ServerInputs>, name: Seq<char>)
    requires
        servers_wf(servers),
    ensures
        forall|i: int|
            0 <= i < servers.len() && (#[trigger] servers[i]).server@ == name ==> outputs_of(
                servers,
                name,
            ) == servers[i].outputs@,
        (forall|i: int| 0 <= i < servers.len() ==> (#[trigger] servers[i]).server@ != name)
            ==> outputs_of(servers, name) == Seq::<FlightMapOutput>::empty(),
    decreases servers.len(),
{
    if servers.len() > 0 {
        let before = servers.drop_last();
        assert forall|i: int, j: int|
            #![trigger before[i], before[j]]
            0 <= i < j < before.len() implies precedes(before[i].server@, before[j].server@) by {
            assert(before[i] == servers[i] && before[j] == servers[j]);
        }
        assert forall|i: int| 0 <= i < before.len() implies (#[trigger] before[i]).outputs@.len()
            > 0 by {
            assert(before[i] == servers[i]);
        }
        lemma_outputs_of(before, name);
        assert(servers[servers.len() - 1] == servers.last());
        precedes_is_strict_order(name, name, name);
        assert forall|i: int|
            0 <= i < servers.len() && (#[trigger] servers[i]).server@ == name implies outputs_of(
            servers,
            name,
        ) == servers[i].outputs@ by {
            if i < before.len() {
                assert(before[i] == servers[i]);
                assert(precedes(servers[i].server@, servers[servers.len() - 1].server@));
            }
        }
        if forall|i: int| 0 <= i < servers.len() ==> (#[trigger] servers[i]).server@ != name {
            assert forall|i: int| 0 <= i < before.len() implies (#[trigger] before[i]).server@
                != name by {
                assert(before[i] == servers[i]);
            }
        }
    }
}

/// Adds an output to the ones of its server.
pub fn add_output(servers: &mut Vec<ServerInputs>, server: &String, output: FlightMapOutput)
    requires
        servers_wf(old(servers)@),
    ensures
        servers_wf(final(servers)@),
        final(servers)@.len() > 0,
        forall|name: Seq<char>| #[trigger]
            outputs_of(final(servers)@, name) == (if name == server@ {
                outputs_of(old(servers)@, name).push(output)
            } else {
                outputs_of(old(servers)@, name)
            }),
{
    let ghost before = servers@;
    let mut i: usize = 0;
    while i < servers.len() && text_precedes(servers[i].server.as_str(), server.as_str())
        invariant
            i <= servers@.len(),
            servers@ == before,
            forall|j: int| 0 <= j < i ==> precedes((#[trigger] servers@[j]).server@, server@),
        decreases servers@.len() - i,
    {
        i = i + 1;
    }
    proof {
        precedes_is_strict_order(server@, server@, server@);
        assert forall|j: int| i < j < before.len() implies precedes(
            server@,
            (#[trigger] before[j]).server@,
        ) by {
            precedes_is_strict_order(server@, before[i as int].server@, before[j].server@);
            assert(precedes(before[i as int].server@, before[j].server@));
            if before[i as int].server@ != server@ {
                assert(precedes(server@, before[i as int].server@));
            }
        }
    }
    let found: bool = i < servers.len() && servers[i].server == *server;
    if found {
        let mut entry: ServerInputs = servers.remove(i);
        entry.outputs.push(output);
        servers.insert(i, entry);
        proof {
            assert(servers@ =~= before.update(i as int, servers@[i as int]));
            assert forall|a: int, b: int|
                #![trigger servers@[a], servers@[b]]
                0 <= a < b < servers@.len() implies precedes(
                servers@[a].server@,
                servers@[b].server@,
            ) by {
                assert(precedes(before[a].server@, before[b].server@));
            }
            assert forall|a: int| 0 <= a < servers@.len() implies (#[trigger] servers@[a]).outputs@.len()
                > 0 by {
                if a != i {
                    assert(servers@[a] == before[a]);
                }
            }
        }
    } else {
        let mut outputs: Vec<FlightMapOutput> = Vec::new();
        outputs.push(output);
        let entry = ServerInputs { server: server.clone(), outputs };
        servers.insert(i, entry);
        proof {
            assert forall|a: int, b: int|
                #![trigger servers@[a], servers@[b]]
                0 <= a < b < servers@.len() implies precedes(
                servers@[a].server@,
                servers@[b].server@,
            ) by {
                let x = if a < i { a } else { a - 1 };
                let y = if b < i { b } else { b - 1 };
                if a != i {
                    assert(servers@[a] == before[x]);
                }
                if b != i {
                    assert(servers@[b] == before[y]);
                }
            }
            assert forall|a: int| 0 <= a < servers@.len() implies (#[trigger] servers@[a]).outputs@.len()
                > 0 by {
                let x = if a < i { a } else { a - 1 };
                if a != i {
                    assert(servers@[a] == before[x]);
                }
            }
        }
    }
    proof {
        assert forall|name: Seq<char>| #[trigger] outputs_of(servers@, name) == (if name == server@ {
            outputs_of(before, name).push(output)
        } else {
            outputs_of(before, name)
        }) by {
            lemma_outputs_of(before, name);
            lemma_outputs_of(servers@, name);
            if name == server@ {
                assert(servers@[i as int].server@ == name);
                if found {
                    assert(before[i as int].server@ == name);
                } else {
                    assert forall|k: int| 0 <= k < before.len() implies (#[trigger] before[k]).server@
                        != name by {}
                    assert(servers@[i as int].outputs@ =~= outputs_of(before, name).push(output));
                }
            } else if exists|k: int| 0 <= k < before.len() && (#[trigger] before[k]).server@ == name {
                let k = choose|k: int| 0 <= k < before.len() && (#[trigger] before[k]).server@ == name;
                if found || k < i {
                    assert(servers@[k] == before[k]);
                } else {
                    assert(servers@[k + 1] == before[k]);
                }
            } else {
                assert forall|k: int| 0 <= k < servers@.len() implies (#[trigger] servers@[k]).server@
                    != name by {
                    let x = if found || k < i { k } else { k - 1 };
                    if k != i {
                        assert(servers@[k] == before[x]);
                    }
                }
            }
        }
    }
}

/// What has been folded so far.
pub struct FlightFold {
    pub num_partitions: usize,
    pub shuffle_id: u64,
    /// The bytes of each partition over all map outputs.
    pub sizes: Vec<usize>,
    pub rows: usize,
    pub nonempty_fragments: usize,
    pub small_fragments: usize,
    pub servers: Vec<ServerInputs>,
    pub seen_inputs: HashSet<u32>,
}

/// The text for a second output of a map input.
pub open spec fn duplicate_text(shuffle_id: u64, f: FlightPartitionRef) -> Seq<char> {
    "shuffle "@ + decimal(shuffle_id as nat) + " received two outputs for map input "@ + decimal(
        f.input_id() as nat,
    ) + " (second from "@ + f.server_address@ + " attempt 0x"@ + hexadecimal(f.attempt as nat)
        + "); refusing to fold both, which would read that input twice"@
}

fn duplicate_error(shuffle_id: u64, f: &FlightPartitionRef) -> (e: DaftError)
    ensures
        e.is_internal_error(duplicate_text(shuffle_id, *f)),
{
    let mut s: String = owned("shuffle ");
    push_decimal(&mut s, shuffle_id);
    s.append(" received two outputs for map input ");
    push_decimal(&mut s, input_id_from_ref(f) as u64);
    s.append(" (second from ");
    s.append(f.server_address.as_str());
    s.append(" attempt 0x");
    push_hexadecimal(&mut s, f.attempt);
    s.append("); refusing to fold both, which would read that input twice");
    DaftError::InternalError(s)
}

/// Whether a partition belongs to the output that begins with `first`, at index `idx`.
pub open spec fn belongs(
    part: FlightPartitionRef,
    idx: int,
    first: FlightPartitionRef,
    shuffle_id: u64,
) -> bool {
    &&& part.partition_idx() == idx
    &&& part.map_output() == first.map_output()
    &&& part.shuffle_id == shuffle_id
    &&& part.server_address@ == first.server_address@
}

/// Why the first `n` partitions of an output cannot be folded, if they cannot.
pub open spec fn identity_error(
    parts: Seq<PartitionRef>,
    first: FlightPartitionRef,
    shuffle_id: u64,
    n: int,
) -> Option<Seq<char>>
    decreases n,
{
    if n <= 0 {
        None
    } else {
        match identity_error(parts, first, shuffle_id, n - 1) {
            Some(text) => Some(text),
            None => match parts[n - 1] {
                PartitionRef::InMemory { num_rows: _, size_bytes: _ } => Some(not_flight_text()),
                PartitionRef::Flight(part) => if belongs(part, n - 1, first, shuffle_id) {
                    None
                } else {
                    Some("Inconsistent Flight map output identity or partition order"@)
                },
            },
        }
    }
}

/// The bytes of a partition.
pub open spec fn part_bytes(part: PartitionRef) -> usize {
    match part {
        PartitionRef::Flight(f) => f.size_bytes,
        PartitionRef::InMemory { num_rows: _, size_bytes } => size_bytes,
    }
}

/// The rows of a partition.
pub open spec fn part_rows(part: PartitionRef) -> usize {
    match part {
        PartitionRef::Flight(f) => f.num_rows,
        PartitionRef::InMemory { num_rows, size_bytes: _ } => num_rows,
    }
}

/// A sum that stops at the largest number.
pub open spec fn saturated(n: int) -> usize {
    if n <= usize::MAX { n as usize } else { usize::MAX }
}

/// The rows in the first `n` partitions.
pub open spec fn rows_in(parts: Seq<PartitionRef>, n: int) -> nat
    decreases n,
{
    if n <= 0 {
        0
    } else {
        rows_in(parts, n - 1) + part_rows(parts[n - 1]) as nat
    }
}

/// How many of the first `n` partitions have rows.
pub open spec fn nonempty_in(parts: Seq<PartitionRef>, n: int) -> nat
    decreases n,
{
    if n <= 0 {
        0
    } else {
        nonempty_in(parts, n - 1) + if part_rows(parts[n - 1]) > 0 { 1nat } else { 0nat }
    }
}

/// How many of the first `n` partitions have rows but few bytes.
pub open spec fn small_in(parts: Seq<PartitionRef>, n: int) -> nat
    decreases n,
{
    if n <= 0 {
        0
    } else {
        small_in(parts, n - 1) + if part_rows(parts[n - 1]) > 0 && part_bytes(parts[n - 1])
            < SMALL_FRAGMENT_BYTES {
            1nat
        } else {
            0nat
        }
    }
}

/// Why an output cannot be folded behind those of the inputs in `seen`, if it cannot.
pub open spec fn output_error(
    num_partitions: usize,
    shuffle_id: u64,
    seen: Set<u32>,
    parts: Seq<PartitionRef>,
) -> Option<Seq<char>> {
    if parts.len() == 0 {
        None
    } else {
        match parts[0] {
            PartitionRef::InMemory { num_rows: _, size_bytes: _ } => Some(not_flight_text()),
            PartitionRef::Flight(first) => if seen.contains(first.input_id()) {
                Some(duplicate_text(shuffle_id, first))
            } else if parts.len() != num_partitions {
                Some("Flight map output partition count mismatch"@)
            } else {
                identity_error(parts, first, shuffle_id, parts.len() as int)
            },
        }
    }
}

impl FlightFold {
    pub open spec fn wf(&self) -> bool {
        &&& self.sizes@.len() == self.num_partitions
        &&& servers_wf(self.servers@)
    }

    /// Whether `next` is this fold with one more output.
    pub open spec fn extended_by(&self, parts: Seq<PartitionRef>, next: FlightFold) -> bool {
        let first = parts[0]->Flight_0;
        &&& next.wf()
        &&& next.num_partitions == self.num_partitions
        &&& next.shuffle_id == self.shuffle_id
        &&& forall|i: int|
            0 <= i < self.num_partitions ==> #[trigger] next.sizes@[i] == saturated(
                self.sizes@[i] + part_bytes(parts[i]),
            )
        &&& next.rows == saturated(self.rows + rows_in(parts, parts.len() as int))
        &&& next.nonempty_fragments == saturated(
            self.nonempty_fragments + nonempty_in(parts, parts.len() as int),
        )
        &&& next.small_fragments == saturated(
            self.small_fragments + small_in(parts, parts.len() as int),
        )
        &&& next.seen_inputs@ == self.seen_inputs@.insert(first.input_id())
        &&& forall|name: Seq<char>| #[trigger]
            outputs_of(next.servers@, name) == (if name == first.server_address@ {
                outputs_of(self.servers@, name).push(first.map_output())
            } else {
                outputs_of(self.servers@, name)
            })
    }

    /// Nothing folded yet.
    pub fn new(num_partitions: usize, shuffle_id: u64) -> (f: FlightFold)
        ensures
            f.wf(),
            f.num_partitions == num_partitions,
            f.shuffle_id == shuffle_id,
            forall|i: int| 0 <= i < num_partitions ==> #[trigger] f.sizes@[i] == 0,
            f.rows == 0,
            f.nonempty_fragments == 0,
            f.small_fragments == 0,
            f.servers@.len() == 0,
            f.seen_inputs@ == Set::<u32>::empty(),
    {
        let mut sizes: Vec<usize> = Vec::new();
        let mut i: usize = 0;
        while i < num_partitions
            invariant
                i <= num_partitions,
                sizes@.len() == i,
                forall|k: int| 0 <= k < i ==> #[trigger] sizes@[k] == 0,
            decreases num_partitions - i,
        {
            sizes.push(0);
            i = i + 1;
        }
        FlightFold {
            num_partitions,
            shuffle_id,
            sizes,
            rows: 0,
            nonempty_fragments: 0,
            small_fragments: 0,
            servers: Vec::new(),
            seen_inputs: HashSet::new(),
        }
    }

    /// Folds the output of one map task. Exactly one output for each map input is taken: a
    /// second one would have every reader read that input twice, so it is refused.
    pub fn add(self, parts: &Vec<PartitionRef>) -> (r: Result<FlightFold, DaftError>)
        requires
            self.wf(),
        ensures
            match output_error(
                self.num_partitions,
                self.shuffle_id,
                self.seen_inputs@,
                parts@,
            ) {
                Some(text) => r matches Err(e) && e.is_internal_error(text),
                None => {
                    &&& r is Ok
                    &&& parts@.len() == 0 ==> r->Ok_0 == self
                    &&& parts@.len() > 0 ==> self.extended_by(parts@, r->Ok_0)
                },
            },
    {
        let mut fold: FlightFold = self;
        if parts.len() == 0 {
            return Ok(fold);
        }
        let first: &FlightPartitionRef = match as_flight_ref(&parts[0]) {
            Ok(first) => first,
            Err(e) => {
                return Err(e);
            },
        };
        let map_output: FlightMapOutput = map_output_from_ref(first);
        if fold.seen_inputs.contains(&map_output.input_id) {
            return Err(duplicate_error(fold.shuffle_id, first));
        }
        fold.seen_inputs.insert(map_output.input_id);
        if parts.len() != fold.num_partitions {
            return Err(DaftError::internal_error("Flight map output partition count mismatch"));
        }
        let mut idx: usize = 0;
        while idx < parts.len()
            invariant
                idx <= parts@.len(),
                parts@.len() > 0,
                parts@[0] == PartitionRef::Flight(*first),
                map_output == first.map_output(),
                parts@.len() == self.num_partitions,
                !self.seen_inputs@.contains(first.input_id()),
                fold.num_partitions == self.num_partitions,
                fold.shuffle_id == self.shuffle_id,
                fold.servers == self.servers,
                self.wf(),
                fold.sizes@.len() == self.num_partitions,
                fold.seen_inputs@ == self.seen_inputs@.insert(first.input_id()),
                identity_error(parts@, *first, self.shuffle_id, idx as int) is None,
                forall|i: int|
                    0 <= i < idx ==> #[trigger] fold.sizes@[i] == saturated(
                        self.sizes@[i] + part_bytes(parts@[i]),
                    ),
                forall|i: int|
                    idx <= i < self.num_partitions ==> #[trigger] fold.sizes@[i] == self.sizes@[i],
                fold.rows == saturated(self.rows + rows_in(parts@, idx as int)),
                fold.nonempty_fragments == saturated(
                    self.nonempty_fragments + nonempty_in(parts@, idx as int),
                ),
                fold.small_fragments == saturated(
                    self.small_fragments + small_in(parts@, idx as int),
                ),
            decreases parts@.len() - idx,
        {
            let part: &FlightPartitionRef = match as_flight_ref(&parts[idx]) {
                Ok(part) => part,
                Err(e) => {
                    proof {
                        lemma_identity_error_stays(
                            parts@,
                            *first,
                            self.shuffle_id,
                            idx + 1,
                            parts@.len() as int,
                        );
                    }
                    return Err(e);
                },
            };
            if partition_idx_from_ref(part) as usize != idx || map_output_from_ref(part)
                != map_output || part.shuffle_id != fold.shuffle_id || part.server_address
                != first.server_address {
                proof {
                    lemma_identity_error_stays(
                        parts@,
                        *first,
                        self.shuffle_id,
                        idx + 1,
                        parts@.len() as int,
                    );
                }
                return Err(
                    DaftError::internal_error(
                        "Inconsistent Flight map output identity or partition order",
                    ),
                );
            }
            let size: usize = fold.sizes[idx];
            fold.sizes.set(idx, size.saturating_add(part.size_bytes));
            fold.rows = fold.rows.saturating_add(part.num_rows);
            if part.num_rows > 0 {
                fold.nonempty_fragments = fold.nonempty_fragments.saturating_add(1);
                if part.size_bytes < SMALL_FRAGMENT_BYTES {
                    fold.small_fragments = fold.small_fragments.saturating_add(1);
                }
            }
            idx = idx + 1;
        }
        add_output(&mut fold.servers, &first.server_address, map_output);
        Ok(fold)
    }
}

proof fn lemma_identity_error_stays(
    parts: Seq<PartitionRef>,
    first: FlightPartitionRef,
    shuffle_id: u64,
    n: int,
    all: int,
)
    requires
        0 <= n <= all,
        identity_error(parts, first, shuffle_id, n) is Some,
    ensures
        identity_error(parts, first, shuffle_id, all) == identity_error(
            parts,
            first,
            shuffle_id,
            n,
        ),
    decreases all - n,
{
    if n < all {
        lemma_identity_error_stays(parts, first, shuffle_id, n + 1, all);
    }
}

/// One group for each of `n` buckets.
pub open spec fn single_buckets(n: nat) -> Seq<Range<usize>> {
    Seq::new(n, |i: int| Range { start: i as usize, end: (i + 1) as usize })
}

/// The buckets that each reduce task reads: merged where nothing speaks against it.
pub open spec fn bucket_groups(sizes: Seq<usize>, merge: bool, target: usize) -> Seq<Range<usize>> {
    if merge {
        coalesced(sizes, target)
    } else {
        single_buckets(sizes.len())
    }
}

/// The text behind a shared root.
pub open spec fn root_text(root: Option<Arc<String>>) -> Option<Seq<char>> {
    match root {
        Some(text) => Some(text@),
        None => None,
    }
}

/// The text behind an optional argument.
pub open spec fn option_text(text: Option<&str>) -> Option<Seq<char>> {
    match text {
        Some(text) => Some(text@),
        None => None,
    }
}

fn shared_text(text: Option<&str>) -> (r: Option<Arc<String>>)
    ensures
        root_text(r) == option_text(text),
{
    match text {
        Some(text) => Some(Arc::new(owned(text))),
        None => None,
    }
}

fn copy_root(root: &Option<Arc<String>>) -> (r: Option<Arc<String>>)
    ensures
        r == *root,
{
    match root {
        Some(text) => Some(Arc::clone(text)),
        None => None,
    }
}

/// Whether reduce tasks read the buckets of their groups, one input for each, in order, and all
/// from `servers`.
pub open spec fn reads_groups(
    reads: Seq<Vec<FlightShuffleReadInput>>,
    groups: Seq<Range<usize>>,
    shuffle_id: u64,
    merge: bool,
    servers: Seq<ServerInputs>,
    root: Option<Seq<char>>,
) -> bool {
    &&& reads.len() == groups.len()
    &&& forall|g: int|
        0 <= g < reads.len() ==> (#[trigger] reads[g])@.len() == groups[g].end - groups[g].start
    &&& forall|g: int, k: int|
        0 <= g < reads.len() && 0 <= k < reads[g]@.len() ==> {
            let input = #[trigger] reads[g]@[k];
            &&& input.shuffle_id == shuffle_id
            &&& input.partition_idx == (groups[g].start + k) as u32
            &&& input.coalesce_ranges == merge
            &&& input.inputs_by_server@ == servers
            &&& root_text(input.shared_root) == root
        }
}

proof fn lemma_tile_ends(groups: Seq<Range<usize>>, end: int, i: int)
    requires
        tiles(groups, end),
        0 <= i < groups.len(),
    ensures
        groups[i].start < groups[i].end <= end,
    decreases groups.len() - i,
{
    if i + 1 < groups.len() {
        lemma_tile_ends(groups, end, i + 1);
        assert(groups[i].end == groups[i + 1].start);
    } else {
        assert(groups[i] == groups.last());
    }
}

impl FlightFold {
    /// The inputs of the reduce tasks. Buckets are merged unless there is a reason to skip that.
    pub fn finish(
        self,
        shared_root: Option<&str>,
        aqe_skip_reason: Option<&str>,
        target_bytes: usize,
    ) -> (reads: Vec<Vec<FlightShuffleReadInput>>)
        requires
            self.wf(),
            aqe_skip_reason is None ==> target_bytes > 0,
        ensures
            reads_groups(
                reads@,
                bucket_groups(self.sizes@, aqe_skip_reason is None, target_bytes),
                self.shuffle_id,
                aqe_skip_reason is None,
                self.servers@,
                option_text(shared_root),
            ),
    {
        let merge: bool = aqe_skip_reason.is_none();
        let count: usize = self.sizes.len();
        let groups: Vec<Range<usize>> = if merge {
            coalesce_partitions(self.sizes.as_slice(), target_bytes)
        } else {
            let mut single: Vec<Range<usize>> = Vec::new();
            let mut i: usize = 0;
            while i < count
                invariant
                    i <= count,
                    single@.len() == i,
                    forall|k: int|
                        0 <= k < i ==> #[trigger] single@[k] == (Range {
                            start: k as usize,
                            end: (k + 1) as usize,
                        }),
                decreases count - i,
            {
                single.push(Range { start: i, end: i + 1 });
                i = i + 1;
            }
            assert(single@ =~= single_buckets(self.sizes@.len()));
            single
        };
        let ghost sizes = self.sizes@;
        let ghost servers = self.servers@;
        let shuffle_id: u64 = self.shuffle_id;
        let inputs_by_server: Arc<Vec<ServerInputs>> = Arc::new(self.servers);
        let root: Option<Arc<String>> = shared_text(shared_root);
        let mut reads: Vec<Vec<FlightShuffleReadInput>> = Vec::new();
        proof {
            assert(groups@ == bucket_groups(sizes, merge, target_bytes));
            if merge {
                coalescing_covers_all_buckets(sizes, target_bytes);
                assert forall|i: int| 0 <= i < groups@.len() implies (#[trigger] groups@[i]).start
                    <= groups@[i].end by {
                    lemma_tile_ends(groups@, sizes.len() as int, i);
                }
            }
        }
        let mut g: usize = 0;
        while g < groups.len()
            invariant
                g <= groups@.len(),
                reads@.len() == g,
                inputs_by_server@ == servers,
                root_text(root) == option_text(shared_root),
                forall|i: int|
                    0 <= i < groups@.len() ==> (#[trigger] groups@[i]).start <= groups@[i].end,
                reads_groups(
                    reads@,
                    groups@.take(g as int),
                    shuffle_id,
                    merge,
                    servers,
                    option_text(shared_root),
                ),
            decreases groups@.len() - g,
        {
            let mut inputs: Vec<FlightShuffleReadInput> = Vec::new();
            let start: usize = groups[g].start;
            let end: usize = groups[g].end;
            let mut idx: usize = start;
            while idx < end
                invariant
                    start <= idx <= end,
                    inputs@.len() == idx - start,
                    inputs_by_server@ == servers,
                    root_text(root) == option_text(shared_root),
                    forall|k: int|
                        0 <= k < inputs@.len() ==> {
                            let input = #[trigger] inputs@[k];
                            &&& input.shuffle_id == shuffle_id
                            &&& input.partition_idx == (start + k) as u32
                            &&& input.coalesce_ranges == merge
                            &&& input.inputs_by_server@ == servers
                            &&& root_text(input.shared_root) == option_text(shared_root)
                        },
                decreases end - idx,
            {
                inputs.push(
                    FlightShuffleReadInput {
                        shuffle_id,
                        partition_idx: idx as u32,
                        coalesce_ranges: merge,
                        inputs_by_server: Arc::clone(&inputs_by_server),
                        shared_root: copy_root(&root),
                    },
                );
                idx = idx + 1;
            }
            reads.push(inputs);
            g = g + 1;
        }
        assert(groups@.take(g as int) =~= groups@);
        reads
    }
}

/// What is known of a shuffle once all map tasks are done.
#[derive(Clone, Copy, Debug, PartialEq, Eq, Structural)]
pub struct ShuffleStatistics {
    pub map_tasks: usize,
    pub original_partitions: usize,
    pub reduce_tasks: usize,
    pub rows: usize,
    pub uncompressed_bytes: usize,
    pub nonempty_fragments: usize,
    pub small_fragments: usize,
    pub partition_p50_bytes: usize,
    pub partition_p95_bytes: usize,
    pub partition_max_bytes: usize,
}

/// The smallest item that at least `percent` in a hundred of the items do not exceed.
pub open spec fn nearest_rank(ascending: Seq<usize>, percent: int) -> usize {
    if ascending.len() == 0 {
        0
    } else {
        ascending[(ascending.len() * percent + 99) / 100 - 1]
    }
}

/// The sum of numbers.
pub open spec fn total(sizes: Seq<usize>) -> nat
    decreases sizes.len(),
{
    if sizes.len() == 0 {
        0
    } else {
        total(sizes.drop_last()) + sizes.last() as nat
    }
}

fn rank(ascending: &Vec<usize>, percent: u8) -> (size: usize)
    requires
        1 <= percent <= 100,
    ensures
        size == nearest_rank(ascending@, percent as int),
{
    let len: usize = ascending.len();
    if len == 0 {
        return 0;
    }
    assert(len * percent <= len * 100) by (nonlinear_arith)
        requires
            percent <= 100,
    ;
    assert(len * percent >= len) by (nonlinear_arith)
        requires
            percent >= 1,
    ;
    let at: u128 = (len as u128 * percent as u128 + 99) / 100 - 1;
    ascending[at as usize]
}

impl FlightFold {
    /// What is known of the shuffle, given how many reduce tasks it has.
    pub fn statistics(&self, reduce_tasks: usize) -> (s: ShuffleStatistics)
        ensures
            s.map_tasks == self.seen_inputs@.len(),
            s.original_partitions == self.num_partitions,
            s.reduce_tasks == reduce_tasks,
            s.rows == self.rows,
            s.uncompressed_bytes == saturated(total(self.sizes@) as int),
            s.nonempty_fragments == self.nonempty_fragments,
            s.small_fragments == self.small_fragments,
            s.partition_p50_bytes == nearest_rank(sorted(self.sizes@), 50),
            s.partition_p95_bytes == nearest_rank(sorted(self.sizes@), 95),
            s.partition_max_bytes == nearest_rank(sorted(self.sizes@), 100),
    {
        let mut bytes: usize = 0;
        let mut copy: Vec<usize> = Vec::new();
        let mut i: usize = 0;
        while i < self.sizes.len()
            invariant
                i <= self.sizes@.len(),
                copy@ == self.sizes@.take(i as int),
                bytes == saturated(total(self.sizes@.take(i as int)) as int),
            decreases self.sizes@.len() - i,
        {
            proof {
                assert(self.sizes@.take(i + 1).drop_last() =~= self.sizes@.take(i as int));
                assert(self.sizes@.take(i as int).push(self.sizes@[i as int])
                    =~= self.sizes@.take(i + 1));
            }
            bytes = bytes.saturating_add(self.sizes[i]);
            copy.push(self.sizes[i]);
            i = i + 1;
        }
        assert(self.sizes@.take(i as int) =~= self.sizes@);
        let ascending: Vec<usize> = sort(copy);
        ShuffleStatistics {
            map_tasks: self.seen_inputs.len(),
            original_partitions: self.num_partitions,
            reduce_tasks,
            rows: self.rows,
            uncompressed_bytes: bytes,
            nonempty_fragments: self.nonempty_fragments,
            small_fragments: self.small_fragments,
            partition_p50_bytes: rank(&ascending, 50),
            partition_p95_bytes: rank(&ascending, 95),
            partition_max_bytes: rank(&ascending, 100),
        }
    }
}

/// What became of the merging of buckets.
pub fn aqe_status<'a>(
    aqe_skip_reason: Option<&'a str>,
    reduce_tasks: usize,
    num_partitions: usize,
) -> (status: &'a str)
    ensures
        status@ == (match aqe_skip_reason {
            Some(reason) => reason@,
            None => if reduce_tasks < num_partitions {
                "coalesced"@
            } else {
                "no_small_partitions"@
            },
        }),
{
    match aqe_skip_reason {
        Some(reason) => reason,
        None => if reduce_tasks < num_partitions {
            "coalesced"
        } else {
            "no_small_partitions"
        },
    }
}

/// The output of one map task, or why there is none.
pub type MapResult = Result<Vec<PartitionRef>, DaftError>;

/// The first partition of an output.
pub open spec fn first_ref(parts: Seq<PartitionRef>) -> FlightPartitionRef {
    parts[0]->Flight_0
}

/// The map inputs of the first `n` outputs.
pub open spec fn inputs_upto(outputs: Seq<MapResult>, n: int) -> Set<u32>
    decreases n,
{
    if n <= 0 {
        Set::empty()
    } else {
        match outputs[n - 1] {
            Ok(parts) => if parts@.len() > 0 {
                inputs_upto(outputs, n - 1).insert(first_ref(parts@).input_id())
            } else {
                inputs_upto(outputs, n - 1)
            },
            Err(_) => inputs_upto(outputs, n - 1),
        }
    }
}

/// The bytes of one partition in the first `n` outputs.
pub open spec fn size_upto(outputs: Seq<MapResult>, idx: int, n: int) -> usize
    decreases n,
{
    if n <= 0 {
        0
    } else {
        match outputs[n - 1] {
            Ok(parts) => if parts@.len() > 0 {
                saturated(size_upto(outputs, idx, n - 1) + part_bytes(parts@[idx]))
            } else {
                size_upto(outputs, idx, n - 1)
            },
            Err(_) => size_upto(outputs, idx, n - 1),
        }
    }
}

/// The bytes of each partition in all outputs.
pub open spec fn bucket_sizes(outputs: Seq<MapResult>, num_partitions: usize) -> Seq<usize> {
    Seq::new(num_partitions as nat, |i: int| size_upto(outputs, i, outputs.len() as int))
}

/// The first `n` outputs that are on one server, in the order in which they came.
pub open spec fn outputs_upto(outputs: Seq<MapResult>, name: Seq<char>, n: int) -> Seq<
    FlightMapOutput,
>
    decreases n,
{
    if n <= 0 {
        Seq::empty()
    } else {
        match outputs[n - 1] {
            Ok(parts) => if parts@.len() > 0 && first_ref(parts@).server_address@ == name {
                outputs_upto(outputs, name, n - 1).push(first_ref(parts@).map_output())
            } else {
                outputs_upto(outputs, name, n - 1)
            },
            Err(_) => outputs_upto(outputs, name, n - 1),
        }
    }
}

/// Why outputs cannot be folded.
pub enum FoldFailure {
    /// The output at `at` did not come about.
    Upstream { at: int },
    /// An output is refused.
    Refused { text: Seq<char> },
}

/// The first reason why the first `n` outputs cannot be folded, if there is one.
pub open spec fn fold_failure(
    outputs: Seq<MapResult>,
    num_partitions: usize,
    shuffle_id: u64,
    n: int,
) -> Option<FoldFailure>
    decreases n,
{
    if n <= 0 {
        None
    } else {
        match fold_failure(outputs, num_partitions, shuffle_id, n - 1) {
            Some(failure) => Some(failure),
            None => match outputs[n - 1] {
                Err(_) => Some(FoldFailure::Upstream { at: n - 1 }),
                Ok(parts) => match output_error(
                    num_partitions,
                    shuffle_id,
                    inputs_upto(outputs, n - 1),
                    parts@,
                ) {
                    Some(text) => Some(FoldFailure::Refused { text }),
                    None => None,
                },
            },
        }
    }
}

proof fn lemma_fold_failure_stays(
    outputs: Seq<MapResult>,
    num_partitions: usize,
    shuffle_id: u64,
    n: int,
    all: int,
)
    requires
        0 <= n <= all,
        fold_failure(outputs, num_partitions, shuffle_id, n) is Some,
    ensures
        fold_failure(outputs, num_partitions, shuffle_id, all) == fold_failure(
            outputs,
            num_partitions,
            shuffle_id,
            n,
        ),
    decreases all - n,
{
    if n < all {
        lemma_fold_failure_stays(outputs, num_partitions, shuffle_id, n + 1, all);
    }
}

/// Whether servers hold the outputs that came from them, and nothing else.
pub open spec fn serves(servers: Seq<ServerInputs>, outputs: Seq<MapResult>) -> bool {
    &&& servers_wf(servers)
    &&& forall|name: Seq<char>| #[trigger]
        outputs_of(servers, name) == outputs_upto(outputs, name, outputs.len() as int)
}

/// Folds the outputs of all map tasks into the inputs of the reduce tasks.
pub fn fold_outputs_from_stream(
    outputs: Vec<MapResult>,
    num_partitions: usize,
    shuffle_id: u64,
    shared_root: Option<&str>,
    aqe_skip_reason: Option<&str>,
    target_bytes: usize,
) -> (r: Result<Vec<Vec<FlightShuffleReadInput>>, DaftError>)
    requires
        aqe_skip_reason is None ==> target_bytes > 0,
    ensures
        match fold_failure(outputs@, num_partitions, shuffle_id, outputs@.len() as int) {
            Some(FoldFailure::Upstream { at }) => r is Err && r->Err_0 == outputs@[at]->Err_0,
            Some(FoldFailure::Refused { text }) => r matches Err(e) && e.is_internal_error(text),
            None => {
                &&& r is Ok
                &&& exists|servers: Seq<ServerInputs>|
                    #![trigger serves(servers, outputs@)]
                    {
                        &&& serves(servers, outputs@)
                        &&& reads_groups(
                            r->Ok_0@,
                            bucket_groups(
                                bucket_sizes(outputs@, num_partitions),
                                aqe_skip_reason is None,
                                target_bytes,
                            ),
                            shuffle_id,
                            aqe_skip_reason is None,
                            servers,
                            option_text(shared_root),
                        )
                    }
            },
        },
{
    let ghost all = outputs@;
    let mut rest: Vec<MapResult> = reversed(outputs);
    let mut fold: FlightFold = FlightFold::new(num_partitions, shuffle_id);
    let ghost mut n: int = 0;
    while rest.len() > 0
        invariant
            all == outputs@,
            0 <= n <= all.len(),
            rest@.len() == all.len() - n,
            forall|i: int| 0 <= i < rest@.len() ==> #[trigger] rest@[i] == all[all.len() - 1 - i],
            fold.wf(),
            fold.num_partitions == num_partitions,
            fold.shuffle_id == shuffle_id,
            fold.seen_inputs@ == inputs_upto(all, n),
            forall|i: int|
                0 <= i < num_partitions ==> #[trigger] fold.sizes@[i] == size_upto(all, i, n),
            forall|name: Seq<char>| #[trigger]
                outputs_of(fold.servers@, name) == outputs_upto(all, name, n),
            fold_failure(all, num_partitions, shuffle_id, n) is None,
        decreases rest@.len(),
    {
        match rest.pop() {
            Some(Ok(parts)) => {
                assert(all[n] == Ok::<Vec<PartitionRef>, DaftError>(parts));
                match fold.add(&parts) {
                    Ok(next) => {
                        fold = next;
                    },
                    Err(e) => {
                        proof {
                            lemma_fold_failure_stays(
                                all,
                                num_partitions,
                                shuffle_id,
                                n + 1,
                                all.len() as int,
                            );
                        }
                        return Err(e);
                    },
                }
            },
            Some(Err(e)) => {
                proof {
                    lemma_fold_failure_stays(
                        all,
                        num_partitions,
                        shuffle_id,
                        n + 1,
                        all.len() as int,
                    );
                }
                return Err(e);
            },
            None => {},
        }
        proof {
            n = n + 1;
        }
    }
    proof {
        assert(fold.sizes@ =~= bucket_sizes(all, num_partitions));
        assert(serves(fold.servers@, all));
    }
    let ghost servers = fold.servers@;
    let reads: Vec<Vec<FlightShuffleReadInput>> = fold.finish(
        shared_root,
        aqe_skip_reason,
        target_bytes,
    );
    assert(serves(servers, outputs@));
    Ok(reads)
}

/// Where outputs are folded, no two of them belong to one map input.
pub proof fn each_input_is_folded_once(
    outputs: Seq<MapResult>,
    num_partitions: usize,
    shuffle_id: u64,
    i: int,
    j: int,
)
    requires
        fold_failure(outputs, num_partitions, shuffle_id, outputs.len() as int) is None,
        0 <= i < j < outputs.len(),
    ensures
        outputs[i] is Ok,
        outputs[i]->Ok_0@.len() > 0 && outputs[j]->Ok_0@.len() > 0 ==> first_ref(
            outputs[i]->Ok_0@,
        ).input_id() != first_ref(outputs[j]->Ok_0@).input_id(),
{
    if fold_failure(outputs, num_partitions, shuffle_id, i + 1) is Some {
        lemma_fold_failure_stays(
            outputs,
            num_partitions,
            shuffle_id,
            i + 1,
            outputs.len() as int,
        );
    }
    if fold_failure(outputs, num_partitions, shuffle_id, j + 1) is Some {
        lemma_fold_failure_stays(
            outputs,
            num_partitions,
            shuffle_id,
            j + 1,
            outputs.len() as int,
        );
    }
    lemma_inputs_grow(outputs, i + 1, j);
}

proof fn lemma_inputs_grow(outputs: Seq<MapResult>, n: int, m: int)
    requires
        0 <= n <= m,
    ensures
        inputs_upto(outputs, n).subset_of(inputs_upto(outputs, m)),
    decreases m - n,
{
    if n < m {
        lemma_inputs_grow(outputs, n, m - 1);
    }
}

/// The partitions of one bucket of one shuffle.
struct RefGroup {
    shuffle_id: u64,
    partition_idx: u32,
    servers: Vec<ServerInputs>,
}

/// Orders buckets by their shuffle, then by their index.
pub open spec fn bucket_key(shuffle_id: u64, partition_idx: u32) -> int {
    shuffle_id * 0x1_0000_0000 + partition_idx
}

/// Orders partitions by the buckets that they belong to.
pub open spec fn ref_key(part: PartitionRef) -> int {
    bucket_key(part->Flight_0.shuffle_id, part->Flight_0.partition_idx())
}

/// Which of the first `n` partitions belong to one bucket and are on one server, in order.
pub open spec fn refs_upto(parts: Seq<PartitionRef>, key: int, name: Seq<char>, n: int) -> Seq<
    FlightMapOutput,
>
    decreases n,
{
    if n <= 0 {
        Seq::empty()
    } else if ref_key(parts[n - 1]) == key && parts[n - 1]->Flight_0.server_address@ == name {
        refs_upto(parts, key, name, n - 1).push(parts[n - 1]->Flight_0.map_output())
    } else {
        refs_upto(parts, key, name, n - 1)
    }
}

proof fn lemma_no_refs(parts: Seq<PartitionRef>, key: int, name: Seq<char>, n: int)
    requires
        forall|k: int| 0 <= k < n ==> ref_key(#[trigger] parts[k]) != key,
    ensures
        refs_upto(parts, key, name, n) == Seq::<FlightMapOutput>::empty(),
    decreases n,
{
    if n > 0 {
        lemma_no_refs(parts, key, name, n - 1);
    }
}

spec fn group_key(g: RefGroup) -> int {
    bucket_key(g.shuffle_id, g.partition_idx)
}

/// Whether groups hold the first `n` partitions by bucket.
spec fn grouped(groups: Seq<RefGroup>, parts: Seq<PartitionRef>, n: int) -> bool {
    &&& forall|i: int, j: int|
        #![trigger groups[i], groups[j]]
        0 <= i < j < groups.len() ==> group_key(groups[i]) < group_key(groups[j])
    &&& forall|i: int|
        0 <= i < groups.len() ==> servers_wf((#[trigger] groups[i]).servers@)
            && groups[i].servers@.len() > 0
    &&& forall|i: int, name: Seq<char>|
        0 <= i < groups.len() ==> #[trigger] outputs_of(groups[i].servers@, name) == refs_upto(
            parts,
            group_key(groups[i]),
            name,
            n,
        )
    &&& forall|k: int|
        0 <= k < n ==> exists|i: int|
            0 <= i < groups.len() && group_key(#[trigger] groups[i]) == ref_key(
                #[trigger] parts[k],
            )
}

/// Puts one more partition into its group.
fn group_ref(groups: &mut Vec<RefGroup>, f: &FlightPartitionRef, parts: Ghost<Seq<PartitionRef>>, n: Ghost<int>)
    requires
        0 <= n@ < parts@.len(),
        parts@[n@] == PartitionRef::Flight(*f),
        grouped(old(groups)@, parts@, n@),
    ensures
        grouped(final(groups)@, parts@, n@ + 1),
{
    let ghost before = groups@;
    let ghost key = ref_key(parts@[n@]);
    let shuffle_id: u64 = f.shuffle_id;
    let partition_idx: u32 = partition_idx_from_ref(f);
    let output: FlightMapOutput = map_output_from_ref(f);
    let mut at: usize = 0;
    while at < groups.len() && (groups[at].shuffle_id < shuffle_id || (groups[at].shuffle_id
        == shuffle_id && groups[at].partition_idx < partition_idx))
        invariant
            at <= groups@.len(),
            groups@ == before,
            key == bucket_key(shuffle_id, partition_idx),
            forall|j: int| 0 <= j < at ==> group_key(#[trigger] groups@[j]) < key,
        decreases groups@.len() - at,
    {
        at = at + 1;
    }
    let found: bool = at < groups.len() && groups[at].shuffle_id == shuffle_id
        && groups[at].partition_idx == partition_idx;
    let mut group: RefGroup = if found {
        groups.remove(at)
    } else {
        RefGroup { shuffle_id, partition_idx, servers: Vec::new() }
    };
    let ghost old_servers = group.servers@;
    proof {
        if !found {
            assert forall|k: int| 0 <= k < n@ implies ref_key(#[trigger] parts@[k]) != key by {
                let i = choose|i: int|
                    0 <= i < before.len() && group_key(#[trigger] before[i]) == ref_key(parts@[k]);
                if i >= at {
                    assert(group_key(before[at as int]) <= group_key(before[i]));
                }
            }
            assert forall|name: Seq<char>| #[trigger] outputs_of(old_servers, name) == refs_upto(
                parts@,
                key,
                name,
                n@,
            ) by {
                lemma_no_refs(parts@, key, name, n@);
            }
        } else {
            assert(before[at as int] == group);
        }
    }
    add_output(&mut group.servers, &f.server_address, output);
    let ghost added = group;
    groups.insert(at, group);
    proof {
        let after = groups@;
        let shift = if found { 0int } else { 1int };
        assert(after.len() == before.len() + shift);
        assert(after[at as int] == added);
        assert forall|i: int| 0 <= i < after.len() && i != at implies #[trigger] after[i]
            == before[if i < at { i } else { i - shift }] by {}
        assert forall|i: int, j: int|
            #![trigger after[i], after[j]]
            0 <= i < j < after.len() implies group_key(after[i]) < group_key(after[j]) by {
            let x = if i < at { i } else { i - shift };
            let y = if j < at { j } else { j - shift };
            if found {
                assert(group_key(before[x]) < group_key(before[y]));
            } else if i == at {
                assert(group_key(before[at as int]) <= group_key(before[y]));
            } else if j != at {
                assert(group_key(before[x]) < group_key(before[y]));
            }
        }
        assert forall|i: int| 0 <= i < after.len() implies servers_wf(
            (#[trigger] after[i]).servers@,
        ) && after[i].servers@.len() > 0 by {
            if i != at {
                let x = if i < at { i } else { i - shift };
                assert(after[i] == before[x]);
            }
        }
        assert forall|i: int, name: Seq<char>| 0 <= i < after.len() implies #[trigger] outputs_of(
            after[i].servers@,
            name,
        ) == refs_upto(parts@, group_key(after[i]), name, n@ + 1) by {
            if i != at {
                let x = if i < at { i } else { i - shift };
                assert(after[i] == before[x]);
                assert(outputs_of(before[x].servers@, name) == refs_upto(
                    parts@,
                    group_key(before[x]),
                    name,
                    n@,
                ));
                if i < at {
                    assert(group_key(after[i]) < group_key(after[at as int]));
                } else {
                    assert(group_key(after[at as int]) < group_key(after[i]));
                }
            } else {
                assert(outputs_of(old_servers, name) == refs_upto(parts@, key, name, n@));
            }
        }
        assert forall|k: int| 0 <= k < n@ + 1 implies exists|i: int|
            0 <= i < after.len() && group_key(#[trigger] after[i]) == ref_key(
                #[trigger] parts@[k],
            ) by {
            if k == n@ {
                assert(group_key(after[at as int]) == ref_key(parts@[k]));
            } else {
                let i = choose|i: int|
                    0 <= i < before.len() && group_key(#[trigger] before[i]) == ref_key(parts@[k]);
                let x = if i < at { i } else { i + shift };
                if found && i == at {
                    assert(group_key(after[at as int]) == ref_key(parts@[k]));
                } else {
                    assert(after[x] == before[i]);
                }
            }
        }
    }
}

/// Whether read inputs address exactly the given partitions: by bucket in ascending order, each
/// bucket with the outputs on every server.
pub open spec fn reads_refs(
    reads: Seq<FlightShuffleReadInput>,
    parts: Seq<PartitionRef>,
    root: Option<Seq<char>>,
) -> bool {
    &&& forall|i: int, j: int|
        #![trigger reads[i], reads[j]]
        0 <= i < j < reads.len() ==> bucket_key(reads[i].shuffle_id, reads[i].partition_idx)
            < bucket_key(reads[j].shuffle_id, reads[j].partition_idx)
    &&& forall|i: int|
        0 <= i < reads.len() ==> {
            let input = #[trigger] reads[i];
            &&& !input.coalesce_ranges
            &&& root_text(input.shared_root) == root
            &&& servers_wf(input.inputs_by_server@)
            &&& input.inputs_by_server@.len() > 0
            &&& forall|name: Seq<char>| #[trigger]
                outputs_of(input.inputs_by_server@, name) == refs_upto(
                    parts,
                    bucket_key(input.shuffle_id, input.partition_idx),
                    name,
                    parts.len() as int,
                )
        }
    &&& forall|k: int|
        0 <= k < parts.len() ==> exists|i: int|
            0 <= i < reads.len() && bucket_key(
                (#[trigger] reads[i]).shuffle_id,
                reads[i].partition_idx,
            ) == ref_key(#[trigger] parts[k])
}

/// Read inputs for any set of partitions that came out of a flight write.
pub fn read_inputs_from_refs(parts: Vec<PartitionRef>, shared_root: Option<&str>) -> (r: Result<
    Vec<FlightShuffleReadInput>,
    DaftError,
>)
    ensures
        (exists|k: int| 0 <= k < parts@.len() && (#[trigger] parts@[k]) is InMemory) ==> (
        r matches Err(e) && e.is_internal_error(not_flight_text())),
        (forall|k: int| 0 <= k < parts@.len() ==> (#[trigger] parts@[k]) is Flight) ==> (
        r matches Ok(reads) && reads_refs(reads@, parts@, option_text(shared_root))),
{
    let mut groups: Vec<RefGroup> = Vec::new();
    let mut n: usize = 0;
    while n < parts.len()
        invariant
            n <= parts@.len(),
            forall|k: int| 0 <= k < n ==> (#[trigger] parts@[k]) is Flight,
            grouped(groups@, parts@, n as int),
        decreases parts@.len() - n,
    {
        match as_flight_ref(&parts[n]) {
            Ok(f) => {
                group_ref(&mut groups, f, Ghost(parts@), Ghost(n as int));
            },
            Err(e) => {
                assert(parts@[n as int] is InMemory);
                return Err(e);
            },
        }
        n = n + 1;
    }
    let ghost all = groups@;
    let root: Option<Arc<String>> = shared_text(shared_root);
    let mut rest: Vec<RefGroup> = reversed(groups);
    let mut reads: Vec<FlightShuffleReadInput> = Vec::new();
    while rest.len() > 0
        invariant
            reads@.len() + rest@.len() == all.len(),
            forall|i: int| 0 <= i < rest@.len() ==> #[trigger] rest@[i] == all[all.len() - 1 - i],
            root_text(root) == option_text(shared_root),
            forall|i: int|
                0 <= i < reads@.len() ==> {
                    let input = #[trigger] reads@[i];
                    &&& input.shuffle_id == all[i].shuffle_id
                    &&& input.partition_idx == all[i].partition_idx
                    &&& !input.coalesce_ranges
                    &&& root_text(input.shared_root) == option_text(shared_root)
                    &&& input.inputs_by_server@ == all[i].servers@
                },
        decreases rest@.len(),
    {
        match rest.pop() {
            Some(group) => {
                reads.push(
                    FlightShuffleReadInput {
                        shuffle_id: group.shuffle_id,
                        partition_idx: group.partition_idx,
                        coalesce_ranges: false,
                        inputs_by_server: Arc::new(group.servers),
                        shared_root: copy_root(&root),
                    },
                );
            },
            None => {},
        }
    }
    proof {
        assert forall|i: int, j: int|
            #![trigger reads@[i], reads@[j]]
            0 <= i < j < reads@.len() implies bucket_key(
            reads@[i].shuffle_id,
            reads@[i].partition_idx,
        ) < bucket_key(reads@[j].shuffle_id, reads@[j].partition_idx) by {
            assert(group_key(all[i]) < group_key(all[j]));
        }
        assert forall|i: int, name: Seq<char>| 0 <= i < reads@.len() implies #[trigger] outputs_of(
            reads@[i].inputs_by_server@,
            name,
        ) == refs_upto(
            parts@,
            bucket_key(reads@[i].shuffle_id, reads@[i].partition_idx),
            name,
            parts@.len() as int,
        ) by {
            assert(outputs_of(all[i].servers@, name) == refs_upto(
                parts@,
                group_key(all[i]),
                name,
                parts@.len() as int,
            ));
        }
        assert forall|k: int| 0 <= k < parts@.len() implies exists|i: int|
            0 <= i < reads@.len() && bucket_key(
                (#[trigger] reads@[i]).shuffle_id,
                reads@[i].partition_idx,
            ) == ref_key(#[trigger] parts@[k]) by {
            let i = choose|i: int|
                0 <= i < all.len() && group_key(#[trigger] all[i]) == ref_key(parts@[k]);
            assert(bucket_key(reads@[i].shuffle_id, reads@[i].partition_idx) == ref_key(parts@[k]));
        }
        assert(reads_refs(reads@, parts@, option_text(shared_root)));
    }
    Ok(reads)
}

proof fn lemma_tiles_find(groups: Seq<Range<usize>>, end: int, idx: int, from: int) -> (g: int)
    requires
        tiles(groups, end),
        0 <= from < groups.len(),
        groups[from].start <= idx < end,
    ensures
        0 <= g < groups.len(),
        groups[g].start <= idx < groups[g].end,
    decreases groups.len() - from,
{
    if idx < groups[from].end {
        from
    } else if from + 1 < groups.len() {
        assert(groups[from].end == groups[from + 1].start);
        lemma_tiles_find(groups, end, idx, from + 1)
    } else {
        assert(groups[from] == groups.last());
        from
    }
}

proof fn lemma_tiles_ascend(groups: Seq<Range<usize>>, end: int, i: int, j: int)
    requires
        tiles(groups, end),
        0 <= i < j < groups.len(),
    ensures
        groups[i].end <= groups[j].start,
    decreases j - i,
{
    assert(groups[i].end == groups[i + 1].start);
    if i + 1 < j {
        lemma_tiles_ascend(groups, end, i + 1, j);
        assert(groups[i + 1].start < groups[i + 1].end);
    }
}

/// Every bucket is read by exactly one reduce task, whether buckets are merged or not.
pub proof fn every_bucket_is_read_once(sizes: Seq<usize>, merge: bool, target: usize, idx: int)
    requires
        sizes.len() <= usize::MAX,
        0 <= idx < sizes.len(),
    ensures
        exists|g: int|
            0 <= g < bucket_groups(sizes, merge, target).len() && (#[trigger] bucket_groups(
                sizes,
                merge,
                target,
            )[g]).start <= idx < bucket_groups(sizes, merge, target)[g].end,
        forall|g: int, h: int|
            #![trigger bucket_groups(sizes, merge, target)[g], bucket_groups(
                sizes,
                merge,
                target,
            )[h]]
            0 <= g < bucket_groups(sizes, merge, target).len() && 0 <= h < bucket_groups(
                sizes,
                merge,
                target,
            ).len() && bucket_groups(sizes, merge, target)[g].start <= idx < bucket_groups(
                sizes,
                merge,
                target,
            )[g].end && bucket_groups(sizes, merge, target)[h].start <= idx < bucket_groups(
                sizes,
                merge,
                target,
            )[h].end ==> g == h,
{
    let groups = bucket_groups(sizes, merge, target);
    let n = sizes.len() as int;
    if merge {
        coalescing_covers_all_buckets(sizes, target);
        assert(groups.len() > 0);
        let g = lemma_tiles_find(groups, n, idx, 0);
        assert(groups[g].start <= idx < groups[g].end);
        assert forall|g: int, h: int|
            #![trigger groups[g], groups[h]]
            0 <= g < groups.len() && 0 <= h < groups.len() && groups[g].start <= idx
                < groups[g].end && groups[h].start <= idx < groups[h].end implies g == h by {
            if g < h {
                lemma_tiles_ascend(groups, n, g, h);
            } else if h < g {
                lemma_tiles_ascend(groups, n, h, g);
            }
        }
    } else {
        assert(groups[idx].start <= idx < groups[idx].end);
    }
}

/// The number of a partition holds the map input that it belongs to and its place there, and
/// nothing else.
pub proof fn partition_numbers_have_two_halves(f: FlightPartitionRef, g: FlightPartitionRef)
    ensures
        f.partition_ref_id == f.input_id() * 0x1_0000_0000 + f.partition_idx(),
        f.input_id() == g.input_id() && f.partition_idx() == g.partition_idx()
            ==> f.partition_ref_id == g.partition_ref_id,
        f.map_output() == g.map_output() <==> f.input_id() == g.input_id() && f.attempt
            == g.attempt,
{
}

/// An output that begins with a partition can be folded as far as each of its partitions stands
/// at its own place and is of the same map input and attempt, the same shuffle and the same
/// server.
pub proof fn only_matching_partitions_are_folded(
    parts: Seq<PartitionRef>,
    first: FlightPartitionRef,
    shuffle_id: u64,
    n: int,
)
    requires
        0 <= n <= parts.len(),
    ensures
        identity_error(parts, first, shuffle_id, n) is None <==> forall|i: int|
            0 <= i < n ==> {
                &&& (#[trigger] parts[i]) is Flight
                &&& parts[i]->Flight_0.partition_idx() == i
                &&& parts[i]->Flight_0.input_id() == first.input_id()
                &&& parts[i]->Flight_0.attempt == first.attempt
                &&& parts[i]->Flight_0.shuffle_id == shuffle_id
                &&& parts[i]->Flight_0.server_address@ == first.server_address@
            },
    decreases n,
{
    if n > 0 {
        only_matching_partitions_are_folded(parts, first, shuffle_id, n - 1);
        if identity_error(parts, first, shuffle_id, n) is Some && identity_error(
            parts,
            first,
            shuffle_id,
            n - 1,
        ) is None {
            assert(parts[n - 1] is InMemory || !belongs(
                parts[n - 1]->Flight_0,
                n - 1,
                first,
                shuffle_id,
            ));
        }
    }
}

/// An output is folded exactly where it is empty, or is the first of its map input, has as many
/// partitions as the shuffle, and all of them match.
pub proof fn outputs_are_folded_where_they_match(
    num_partitions: usize,
    shuffle_id: u64,
    seen: Set<u32>,
    parts: Seq<PartitionRef>,
)
    ensures
        output_error(num_partitions, shuffle_id, seen, parts) is None <==> parts.len() == 0 || {
            &&& parts[0] is Flight
            &&& !seen.contains(parts[0]->Flight_0.input_id())
            &&& parts.len() == num_partitions
            &&& identity_error(parts, parts[0]->Flight_0, shuffle_id, parts.len() as int) is None
        },
        parts.len() > 0 && parts[0] is Flight && seen.contains(parts[0]->Flight_0.input_id())
            ==> output_error(num_partitions, shuffle_id, seen, parts) == Some(
            duplicate_text(shuffle_id, parts[0]->Flight_0),
        ),
{
}

/// Rows, fragments with rows, and fragments with rows but fewer than 65536 bytes are counted
/// partition by partition.
pub proof fn fragments_add_up(parts: Seq<PartitionRef>, n: int)
    requires
        0 <= n,
    ensures
        rows_in(parts, 0) == 0,
        nonempty_in(parts, 0) == 0,
        small_in(parts, 0) == 0,
        parts[n] matches PartitionRef::Flight(f) ==> {
            &&& part_bytes(parts[n]) == f.size_bytes
            &&& part_rows(parts[n]) == f.num_rows
            &&& rows_in(parts, n + 1) == rows_in(parts, n) + f.num_rows
            &&& f.num_rows == 0 ==> nonempty_in(parts, n + 1) == nonempty_in(parts, n)
            &&& f.num_rows > 0 ==> nonempty_in(parts, n + 1) == nonempty_in(parts, n) + 1
            &&& f.num_rows > 0 && f.size_bytes < 65_536 ==> small_in(parts, n + 1) == small_in(
                parts,
                n,
            ) + 1
            &&& f.num_rows == 0 || f.size_bytes >= 65_536 ==> small_in(parts, n + 1) == small_in(
                parts,
                n,
            )
        },
{
}

/// Sums are exact as far as they can be written, and stop at the largest number.
pub proof fn sums_stop_at_the_largest_number(n: int)
    requires
        0 <= n,
    ensures
        n <= usize::MAX ==> saturated(n) == n,
        n > usize::MAX ==> saturated(n) == usize::MAX,
{
}

/// An output that is folded adds its bytes partition by partition, its rows and its fragments,
/// is remembered by its map input, and is read from its server from then on, behind what was
/// read from there before.
pub proof fn folding_adds_one_output(
    before: FlightFold,
    parts: Seq<PartitionRef>,
    after: FlightFold,
    i: int,
    name: Seq<char>,
)
    requires
        before.extended_by(parts, after),
        parts.len() > 0,
        parts[0] is Flight,
        0 <= i < before.num_partitions,
    ensures
        ({
            let first = parts[0]->Flight_0;
            let bytes = before.sizes@[i] + part_bytes(parts[i]);
            let rows = before.rows + rows_in(parts, parts.len() as int);
            &&& after.wf()
            &&& after.num_partitions == before.num_partitions
            &&& after.shuffle_id == before.shuffle_id
            &&& bytes <= usize::MAX ==> after.sizes@[i] == bytes
            &&& bytes > usize::MAX ==> after.sizes@[i] == usize::MAX
            &&& rows <= usize::MAX ==> after.rows == rows
            &&& rows > usize::MAX ==> after.rows == usize::MAX
            &&& before.nonempty_fragments + nonempty_in(parts, parts.len() as int) <= usize::MAX
                ==> after.nonempty_fragments == before.nonempty_fragments + nonempty_in(
                parts,
                parts.len() as int,
            )
            &&& before.small_fragments + small_in(parts, parts.len() as int) <= usize::MAX
                ==> after.small_fragments == before.small_fragments + small_in(
                parts,
                parts.len() as int,
            )
            &&& after.seen_inputs@.contains(first.input_id())
            &&& forall|id: u32|
                id != first.input_id() ==> (#[trigger] after.seen_inputs@.contains(id)
                    <==> before.seen_inputs@.contains(id))
            &&& outputs_of(after.servers@, first.server_address@) == outputs_of(
                before.servers@,
                first.server_address@,
            ).push(first.map_output())
            &&& name != first.server_address@ ==> outputs_of(after.servers@, name) == outputs_of(
                before.servers@,
                name,
            )
        }),
{
}

/// The task that a bucket is given to reads it: it has an input with the bucket's number, from
/// all servers.
pub proof fn given_buckets_are_read(
    reads: Seq<Vec<FlightShuffleReadInput>>,
    groups: Seq<Range<usize>>,
    shuffle_id: u64,
    merge: bool,
    servers: Seq<ServerInputs>,
    root: Option<Seq<char>>,
    g: int,
    bucket: int,
)
    requires
        reads_groups(reads, groups, shuffle_id, merge, servers, root),
        0 <= g < groups.len(),
        groups[g].start <= bucket < groups[g].end,
        bucket <= u32::MAX,
    ensures
        reads.len() == groups.len(),
        reads[g]@.len() == groups[g].end - groups[g].start,
        ({
            let input = reads[g]@[bucket - groups[g].start];
            &&& input.shuffle_id == shuffle_id
            &&& input.partition_idx == bucket
            &&& input.coalesce_ranges == merge
            &&& input.inputs_by_server@ == servers
            &&& root is None <==> input.shared_root is None
            &&& root is Some ==> input.shared_root->0@ == root->0
        }),
{
    let input = reads[g]@[bucket - groups[g].start];
}

/// Without merging, there is one task for each bucket.
pub proof fn unmerged_buckets_stand_alone(sizes: Seq<usize>, target: usize, i: int)
    requires
        0 <= i < sizes.len() <= usize::MAX,
    ensures
        bucket_groups(sizes, false, target).len() == sizes.len(),
        bucket_groups(sizes, false, target)[i].start == i,
        bucket_groups(sizes, false, target)[i].end == i + 1,
{
}

/// A percentile is one of the sizes: at least so many in a hundred do not stand behind it, and
/// fewer than that stand before it.
pub proof fn percentiles_are_nearest_ranks(ascending: Seq<usize>, percent: int) -> (k: int)
    requires
        ascending.len() > 0,
        1 <= percent <= 100,
    ensures
        0 <= k < ascending.len(),
        nearest_rank(ascending, percent) == ascending[k],
        (k + 1) * 100 >= ascending.len() * percent,
        k * 100 < ascending.len() * percent,
{
    let n = ascending.len() as int;
    let x = n * percent;
    assert(1 <= x <= n * 100) by (nonlinear_arith)
        requires
            x == n * percent,
            1 <= n,
            1 <= percent <= 100,
    ;
    (x + 99) / 100 - 1
}

/// Bytes are added up size by size.
pub proof fn sizes_add_up(sizes: Seq<usize>, size: usize)
    ensures
        total(Seq::empty()) == 0,
        total(sizes.push(size)) == total(sizes) + size,
{
    assert(sizes.push(size).drop_last() =~= sizes);
}

/// The bytes of a bucket are added up output by output; outputs without partitions add nothing.
pub proof fn bucket_bytes_add_up(outputs: Seq<MapResult>, idx: int, n: int)
    requires
        0 <= n,
    ensures
        size_upto(outputs, idx, 0) == 0,
        outputs[n] matches Ok(parts) ==> if parts@.len() == 0 {
            size_upto(outputs, idx, n + 1) == size_upto(outputs, idx, n)
        } else {
            let bytes = size_upto(outputs, idx, n) + part_bytes(parts@[idx]);
            size_upto(outputs, idx, n + 1) == (if bytes <= usize::MAX {
                bytes
            } else {
                usize::MAX as int
            })
        },
{
}

/// Every output is read: it is among those of its server. And nothing is read from a server but
/// outputs that came from it.
pub proof fn every_output_is_read_from_its_server(
    outputs: Seq<MapResult>,
    name: Seq<char>,
    n: int,
    output: FlightMapOutput,
)
    requires
        0 <= n <= outputs.len(),
    ensures
        outputs_upto(outputs, name, n).contains(output) <==> exists|i: int|
            0 <= i < n && (#[trigger] outputs[i]) is Ok && outputs[i]->Ok_0@.len() > 0
                && outputs[i]->Ok_0@[0]->Flight_0.server_address@ == name
                && outputs[i]->Ok_0@[0]->Flight_0.map_output() == output,
    decreases n,
{
    if n > 0 {
        every_output_is_read_from_its_server(outputs, name, n - 1, output);
        let before = outputs_upto(outputs, name, n - 1);
        let all = outputs_upto(outputs, name, n);
        if all.len() > before.len() {
            assert(all[before.len() as int] == outputs[n - 1]->Ok_0@[0]->Flight_0.map_output());
            if before.contains(output) {
                let k = choose|k: int| 0 <= k < before.len() && before[k] == output;
                assert(all[k] == output);
            }
            if all.contains(output) && all[before.len() as int] != output {
                let k = choose|k: int| 0 <= k < all.len() && all[k] == output;
                assert(before[k] == output);
            }
        }
    }
}

/// Outputs are folded exactly where all came about and each can be folded behind those before
/// it; else the first that did not, or cannot, is told.
pub proof fn folding_fails_with_the_first_bad_output(
    outputs: Seq<MapResult>,
    num_partitions: usize,
    shuffle_id: u64,
    n: int,
    i: int,
)
    requires
        0 <= i < n <= outputs.len(),
        forall|j: int|
            0 <= j < i ==> (#[trigger] outputs[j]) is Ok && output_error(
                num_partitions,
                shuffle_id,
                inputs_upto(outputs, j),
                outputs[j]->Ok_0@,
            ) is None,
    ensures
        outputs[i] is Err ==> fold_failure(outputs, num_partitions, shuffle_id, n) == Some(
            FoldFailure::Upstream { at: i },
        ),
        outputs[i] matches Ok(parts) ==> {
            let problem = output_error(
                num_partitions,
                shuffle_id,
                inputs_upto(outputs, i),
                parts@,
            );
            &&& problem is Some ==> fold_failure(outputs, num_partitions, shuffle_id, n) == Some(
                FoldFailure::Refused { text: problem->0 },
            )
            &&& problem is None && n == i + 1 ==> fold_failure(
                outputs,
                num_partitions,
                shuffle_id,
                n,
            ) is None
        },
    decreases n,
{
    if i < n - 1 {
        folding_fails_with_the_first_bad_output(outputs, num_partitions, shuffle_id, n - 1, i);
    } else if i > 0 {
        folding_fails_with_the_first_bad_output(
            outputs,
            num_partitions,
            shuffle_id,
            n - 1,
            i - 1,
        );
        assert(outputs[i - 1] is Ok);
    }
}

/// The inputs that are remembered are those of the outputs so far.
pub proof fn inputs_of_outputs_are_remembered(outputs: Seq<MapResult>, n: int, id: u32)
    requires
        0 <= n <= outputs.len(),
    ensures
        inputs_upto(outputs, n).contains(id) <==> exists|i: int|
            0 <= i < n && (#[trigger] outputs[i]) is Ok && outputs[i]->Ok_0@.len() > 0
                && outputs[i]->Ok_0@[0]->Flight_0.input_id() == id,
    decreases n,
{
    if n > 0 {
        inputs_of_outputs_are_remembered(outputs, n - 1, id);
    }
}

/// Buckets are ordered by their shuffle first and by their place in it then, and no two share
/// a key.
pub proof fn buckets_are_ordered_by_shuffle(a: u64, i: u32, b: u64, j: u32)
    ensures
        bucket_key(a, i) < bucket_key(b, j) <==> a < b || (a == b && i < j),
        bucket_key(a, i) == bucket_key(b, j) <==> a == b && i == j,
{
}

/// Every partition is read: the input for its bucket has its output among those of its server,
/// and that of no other bucket or server.
pub proof fn every_partition_is_read(
    reads: Seq<FlightShuffleReadInput>,
    parts: Seq<PartitionRef>,
    root: Option<Seq<char>>,
    k: int,
) -> (i: int)
    requires
        reads_refs(reads, parts, root),
        0 <= k < parts.len(),
        parts[k] is Flight,
    ensures
        0 <= i < reads.len(),
        reads[i].shuffle_id == parts[k]->Flight_0.shuffle_id,
        reads[i].partition_idx == parts[k]->Flight_0.partition_idx(),
        !reads[i].coalesce_ranges,
        servers_wf(reads[i].inputs_by_server@),
        reads[i].inputs_by_server@.len() > 0,
        root is None <==> reads[i].shared_root is None,
        root is Some ==> reads[i].shared_root->0@ == root->0,
        outputs_of(reads[i].inputs_by_server@, parts[k]->Flight_0.server_address@).contains(
            parts[k]->Flight_0.map_output(),
        ),
{
    let i = choose|i: int|
        0 <= i < reads.len() && bucket_key(
            (#[trigger] reads[i]).shuffle_id,
            reads[i].partition_idx,
        ) == ref_key(parts[k]);
    lemma_ref_listed(
        parts,
        ref_key(parts[k]),
        parts[k]->Flight_0.server_address@,
        parts.len() as int,
        k,
    );
    i
}

proof fn lemma_ref_listed(
    parts: Seq<PartitionRef>,
    key: int,
    name: Seq<char>,
    n: int,
    k: int,
)
    requires
        0 <= k < n <= parts.len(),
        ref_key(parts[k]) == key,
        parts[k]->Flight_0.server_address@ == name,
    ensures
        refs_upto(parts, key, name, n).contains(parts[k]->Flight_0.map_output()),
    decreases n,
{
    let before = refs_upto(parts, key, name, n - 1);
    let all = refs_upto(parts, key, name, n);
    let output = parts[k]->Flight_0.map_output();
    if k < n - 1 {
        lemma_ref_listed(parts, key, name, n - 1, k);
        let p = choose|p: int| 0 <= p < before.len() && before[p] == output;
        assert(all[p] == output);
    } else {
        assert(all[before.len() as int] == output);
    }
}

/// Nothing is read but partitions that were given: an output that is read for a bucket from a
/// server is that of a partition of the bucket on that server.
pub proof fn only_given_partitions_are_read(
    reads: Seq<FlightShuffleReadInput>,
    parts: Seq<PartitionRef>,
    root: Option<Seq<char>>,
    i: int,
    name: Seq<char>,
    p: int,
) -> (k: int)
    requires
        reads_refs(reads, parts, root),
        0 <= i < reads.len(),
        0 <= p < outputs_of(reads[i].inputs_by_server@, name).len(),
    ensures
        0 <= k < parts.len(),
        parts[k]->Flight_0.shuffle_id == reads[i].shuffle_id,
        parts[k]->Flight_0.partition_idx() == reads[i].partition_idx,
        parts[k]->Flight_0.server_address@ == name,
        parts[k]->Flight_0.map_output() == outputs_of(reads[i].inputs_by_server@, name)[p],
{
    let key = bucket_key(reads[i].shuffle_id, reads[i].partition_idx);
    lemma_listed_ref(parts, key, name, parts.len() as int, p)
}

proof fn lemma_listed_ref(
    parts: Seq<PartitionRef>,
    key: int,
    name: Seq<char>,
    n: int,
    p: int,
) -> (k: int)
    requires
        0 <= n <= parts.len(),
        0 <= p < refs_upto(parts, key, name, n).len(),
    ensures
        0 <= k < n,
        ref_key(parts[k]) == key,
        parts[k]->Flight_0.server_address@ == name,
        parts[k]->Flight_0.map_output() == refs_upto(parts, key, name, n)[p],
    decreases n,
{
    if n <= 0 {
        0
    } else if p < refs_upto(parts, key, name, n - 1).len() {
        lemma_listed_ref(parts, key, name, n - 1, p)
    } else {
        n - 1
    }
}

/// Whatever reduce task reads a bucket reads it from every map task: where servers serve the
/// outputs, each output that has partitions is among those of its server.
pub proof fn every_map_task_is_read(
    servers: Seq<ServerInputs>,
    outputs: Seq<MapResult>,
    num_partitions: usize,
    i: int,
    bucket: int,
)
    requires
        serves(servers, outputs),
        0 <= i < outputs.len(),
        outputs[i] is Ok,
        outputs[i]->Ok_0@.len() > 0,
        0 <= bucket < num_partitions,
    ensures
        servers_wf(servers),
        outputs_of(servers, outputs[i]->Ok_0@[0]->Flight_0.server_address@).contains(
            outputs[i]->Ok_0@[0]->Flight_0.map_output(),
        ),
        bucket_sizes(outputs, num_partitions).len() == num_partitions,
        bucket_sizes(outputs, num_partitions)[bucket] == size_upto(
            outputs,
            bucket,
            outputs.len() as int,
        ),
{
    let first = outputs[i]->Ok_0@[0]->Flight_0;
    every_output_is_read_from_its_server(
        outputs,
        first.server_address@,
        outputs.len() as int,
        first.map_output(),
    );
}

/// A root is handed on as it is, or not at all.
pub proof fn roots_are_handed_on(text: &str, root: Arc<String>)
    ensures
        option_text(None) is None,
        option_text(Some(text)) == Some(text@),
        root_text(None) is None,
        root_text(Some(root)) == Some(root@),
{
}

/// No bucket has two inputs, and the inputs come in the order of their shuffles, and of their
/// places in one shuffle.
pub proof fn buckets_have_one_input(
    reads: Seq<FlightShuffleReadInput>,
    parts: Seq<PartitionRef>,
    root: Option<Seq<char>>,
    i: int,
    j: int,
)
    requires
        reads_refs(reads, parts, root),
        0 <= i < j < reads.len(),
    ensures
        reads[i].shuffle_id < reads[j].shuffle_id || (reads[i].shuffle_id == reads[j].shuffle_id
            && reads[i].partition_idx < reads[j].partition_idx),
{
    buckets_are_ordered_by_shuffle(
        reads[i].shuffle_id,
        reads[i].partition_idx,
        reads[j].shuffle_id,
        reads[j].partition_idx,
    );
}

} // verus!
