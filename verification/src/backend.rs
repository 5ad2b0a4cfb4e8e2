//! The shuffle backend of a plan node.
use vstd::prelude::*;

use crate::error::DaftError;
use crate::flight::{
    fold_failure, fold_outputs_from_stream, is_flight_ref, part_bytes, read_inputs_from_refs,
    reads_groups, reads_refs, bucket_groups, bucket_sizes, serves, option_text,
    FlightShuffleReadInput, FoldFailure, MapResult, PartitionRef, ServerInputs,
};
use crate::text::{decimal, owned, push_decimal};

verus! {

/// Identifies a node of a plan.
pub type NodeID = u32;

/// Where a shuffle writes when all nodes see one tree of files.
#[derive(Debug)]
pub struct SharedShuffleSpec {
    pub root: String,
    /// When written bytes are made durable.
    pub durability: String,
}

impl Clone for SharedShuffleSpec {
    fn clone(&self) -> (c: SharedShuffleSpec)
        ensures
            c == *self,
    {
        SharedShuffleSpec { root: self.root.clone(), durability: self.durability.clone() }
    }
}

/// How a flight shuffle writes.
#[derive(Debug)]
pub struct FlightShuffleBackendConfig {
    pub shuffle_id: u64,
    pub shuffle_dirs: Vec<String>,
    pub compression: Option<String>,
    pub shared: Option<SharedShuffleSpec>,
}

impl Default for FlightShuffleBackendConfig {
    fn default() -> (c: FlightShuffleBackendConfig)
        ensures
            c.shuffle_id == 0,
            c.shuffle_dirs@.len() == 0,
            c.compression is None,
            c.shared is None,
    {
        FlightShuffleBackendConfig {
            shuffle_id: 0,
            shuffle_dirs: Vec::new(),
            compression: None,
            shared: None,
        }
    }
}

/// How map tasks lay out what they write. Only a combined file has an index that a peer can
/// resolve byte ranges from, so only it can be placed on a shared tree.
#[derive(Clone, Copy, Debug, PartialEq, Eq, Structural)]
pub enum ShuffleWriteKind {
    /// One file with its own index for each map task.
    CombinedFile,
    /// One directory for each partition.
    PerPartition,
}

/// What carries a shuffle.
#[derive(Debug)]
pub enum DistributedShuffleBackend {
    Ray,
    Flight(FlightShuffleBackendConfig),
}

impl DistributedShuffleBackend {
    /// The root of the shared tree, if there is one.
    pub open spec fn root(&self) -> Option<Seq<char>> {
        match *self {
            DistributedShuffleBackend::Ray => None,
            DistributedShuffleBackend::Flight(config) => match config.shared {
                Some(shared) => Some(shared.root@),
                None => None,
            },
        }
    }

    /// The root of the shared tree, if there is one.
    pub fn shared_root(&self) -> (r: Option<&str>)
        ensures
            option_text(r) == self.root(),
    {
        match self {
            DistributedShuffleBackend::Ray => None,
            DistributedShuffleBackend::Flight(config) => match &config.shared {
                Some(shared) => Some(shared.root.as_str()),
                None => None,
            },
        }
    }
}

/// What carries a shuffle, as a task on one node sees it.
#[derive(Debug)]
pub enum LocalShuffleBackend {
    Ray,
    Flight {
        shuffle_id: u64,
        shuffle_dirs: Vec<String>,
        compression: Option<String>,
        shared: Option<SharedShuffleSpec>,
    },
}

fn copy_texts(texts: &Vec<String>) -> (copy: Vec<String>)
    ensures
        copy@ == texts@,
{
    let mut copy: Vec<String> = Vec::new();
    let mut i: usize = 0;
    while i < texts.len()
        invariant
            i <= texts@.len(),
            copy@ == texts@.take(i as int),
        decreases texts@.len() - i,
    {
        copy.push(texts[i].clone());
        i = i + 1;
        assert(copy@ =~= texts@.take(i as int));
    }
    assert(copy@ =~= texts@);
    copy
}

/// A number for a shuffle, by `rand::random`. Nothing is claimed of it: any number may come
/// back. It is random and no count, so that drivers that share a cluster or a file system do
/// not write into each other's directories.
#[verifier::external_body]
fn make_shuffle_id() -> (id: u64) {
    rand::random::<u64>()
}

/// The backend of one node, with the identity of its shuffle.
pub struct ShuffleBackend {
    pub backend: DistributedShuffleBackend,
    pub node_id: NodeID,
}

/// Whether `got` is `given` for a shuffle of the number `id`. What is written by partition is
/// never placed on a shared tree.
pub open spec fn stamped(
    given: DistributedShuffleBackend,
    write_kind: ShuffleWriteKind,
    id: u64,
    got: DistributedShuffleBackend,
) -> bool {
    match given {
        DistributedShuffleBackend::Ray => got is Ray,
        DistributedShuffleBackend::Flight(config) => got == DistributedShuffleBackend::Flight(
            FlightShuffleBackendConfig {
                shuffle_id: id,
                shared: if write_kind == ShuffleWriteKind::PerPartition {
                    None
                } else {
                    config.shared
                },
                ..config
            },
        ),
    }
}

/// What is removed once a shuffle is over.
#[derive(Debug)]
pub struct ShuffleCleanup {
    pub shuffle_id: u64,
    /// Directories that every node has for itself.
    pub shuffle_dirs: Vec<String>,
    /// The root of the one tree that all nodes see, which one of them clears.
    pub shared_root: Option<String>,
}

/// The directory of a shuffle below a base directory.
pub open spec fn shuffle_dir(base: Seq<char>, shuffle_id: u64) -> Seq<char> {
    base + "/daft_shuffle/"@ + decimal(shuffle_id as nat)
}

/// How a node reads partitions that are there already.
pub enum RefsRead {
    /// They are in memory.
    InMemory { refs: Vec<PartitionRef>, total_size_bytes: usize },
    /// They are read from the servers that have them.
    Flight { reads: Vec<FlightShuffleReadInput> },
}

/// How many of the first `n` partitions came out of a flight write.
pub open spec fn flight_refs(refs: Seq<PartitionRef>, n: int) -> nat
    decreases n,
{
    if n <= 0 {
        0
    } else {
        flight_refs(refs, n - 1) + if refs[n - 1] is Flight { 1nat } else { 0nat }
    }
}

/// The bytes of the first `n` partitions.
pub open spec fn refs_bytes(refs: Seq<PartitionRef>, n: int) -> nat
    decreases n,
{
    if n <= 0 {
        0
    } else {
        refs_bytes(refs, n - 1) + part_bytes(refs[n - 1]) as nat
    }
}

/// The text for partitions of both kinds.
pub open spec fn mixed_text(node_id: NodeID, flight: nat, all: nat) -> Seq<char> {
    "Shuffle read for node "@ + decimal(node_id as nat)
        + " got a mix of flight and in-memory partition refs ("@ + decimal(flight) + " of "@
        + decimal(all)
        + " are flight refs); a stage's outputs must be all one or the other."@
}

proof fn lemma_flight_refs(refs: Seq<PartitionRef>, n: int)
    requires
        0 <= n <= refs.len(),
    ensures
        flight_refs(refs, n) <= n,
        flight_refs(refs, n) == n <==> forall|i: int| 0 <= i < n ==> (#[trigger] refs[i]) is Flight,
    decreases n,
{
    if n > 0 {
        lemma_flight_refs(refs, n - 1);
        if flight_refs(refs, n) == n {
            assert forall|i: int| 0 <= i < n implies (#[trigger] refs[i]) is Flight by {}
        }
        if forall|i: int| 0 <= i < n ==> (#[trigger] refs[i]) is Flight {
            assert(refs[n - 1] is Flight);
        }
    }
}

proof fn lemma_refs_bytes(refs: Seq<PartitionRef>, n: int, m: int)
    requires
        0 <= n <= m,
    ensures
        refs_bytes(refs, n) <= refs_bytes(refs, m),
    decreases m - n,
{
    if n < m {
        lemma_refs_bytes(refs, n, m - 1);
    }
}

impl ShuffleBackend {
    /// The backend of a node, under a number of its own.
    pub fn new(
        node_id: NodeID,
        backend: DistributedShuffleBackend,
        write_kind: ShuffleWriteKind,
    ) -> (b: ShuffleBackend)
        ensures
            b.node_id == node_id,
            exists|id: u64| #[trigger] stamped(backend, write_kind, id, b.backend),
    {
        let id: u64 = make_shuffle_id();
        ShuffleBackend::with_shuffle_id(node_id, backend, write_kind, id)
    }

    /// The backend of a node, under a given number.
    pub fn with_shuffle_id(
        node_id: NodeID,
        backend: DistributedShuffleBackend,
        write_kind: ShuffleWriteKind,
        id: u64,
    ) -> (b: ShuffleBackend)
        ensures
            b.node_id == node_id,
            stamped(backend, write_kind, id, b.backend),
    {
        let stamped_backend: DistributedShuffleBackend = match backend {
            DistributedShuffleBackend::Ray => DistributedShuffleBackend::Ray,
            DistributedShuffleBackend::Flight(config) => {
                let mut config: FlightShuffleBackendConfig = config;
                config.shuffle_id = id;
                if write_kind == ShuffleWriteKind::PerPartition {
                    config.shared = None;
                }
                DistributedShuffleBackend::Flight(config)
            },
        };
        ShuffleBackend { backend: stamped_backend, node_id }
    }

    pub fn backend(&self) -> (b: &DistributedShuffleBackend)
        ensures
            *b == self.backend,
    {
        &self.backend
    }

    pub fn node_id(&self) -> (id: NodeID)
        ensures
            id == self.node_id,
    {
        self.node_id
    }

    /// The backend as the tasks of this node see it.
    pub fn local_shuffle_backend(&self) -> (b: LocalShuffleBackend)
        ensures
            match self.backend {
                DistributedShuffleBackend::Ray => b is Ray,
                DistributedShuffleBackend::Flight(config) => {
                    &&& b is Flight
                    &&& b->shuffle_id == config.shuffle_id
                    &&& b->shuffle_dirs@ == config.shuffle_dirs@
                    &&& b->compression == config.compression
                    &&& b->shared == config.shared
                },
            },
    {
        match &self.backend {
            DistributedShuffleBackend::Ray => LocalShuffleBackend::Ray,
            DistributedShuffleBackend::Flight(config) => LocalShuffleBackend::Flight {
                shuffle_id: config.shuffle_id,
                shuffle_dirs: copy_texts(&config.shuffle_dirs),
                compression: match &config.compression {
                    Some(text) => Some(text.clone()),
                    None => None,
                },
                shared: match &config.shared {
                    Some(shared) => Some(shared.clone()),
                    None => None,
                },
            },
        }
    }

    /// What is removed once the shuffle is over, if it leaves anything behind.
    pub fn register_cleanup(&self) -> (r: Option<ShuffleCleanup>)
        ensures
            match self.backend {
                DistributedShuffleBackend::Ray => r is None,
                DistributedShuffleBackend::Flight(config) => {
                    &&& r is Some
                    &&& r->0.shuffle_id == config.shuffle_id
                    &&& r->0.shuffle_dirs@.len() == config.shuffle_dirs@.len()
                    &&& forall|i: int|
                        0 <= i < config.shuffle_dirs@.len() ==> (#[trigger] r->0.shuffle_dirs@[i])@
                            == shuffle_dir(config.shuffle_dirs@[i]@, config.shuffle_id)
                    &&& match config.shared {
                        Some(shared) => r->0.shared_root is Some && r->0.shared_root->0@
                            == shared.root@,
                        None => r->0.shared_root is None,
                    }
                },
            },
    {
        match &self.backend {
            DistributedShuffleBackend::Ray => None,
            DistributedShuffleBackend::Flight(config) => {
                let mut dirs: Vec<String> = Vec::new();
                let mut i: usize = 0;
                while i < config.shuffle_dirs.len()
                    invariant
                        i <= config.shuffle_dirs@.len(),
                        dirs@.len() == i,
                        forall|k: int|
                            0 <= k < i ==> (#[trigger] dirs@[k])@ == shuffle_dir(
                                config.shuffle_dirs@[k]@,
                                config.shuffle_id,
                            ),
                    decreases config.shuffle_dirs@.len() - i,
                {
                    let mut dir: String = config.shuffle_dirs[i].clone();
                    dir.append("/daft_shuffle/");
                    push_decimal(&mut dir, config.shuffle_id);
                    dirs.push(dir);
                    i = i + 1;
                }
                Some(
                    ShuffleCleanup {
                        shuffle_id: config.shuffle_id,
                        shuffle_dirs: dirs,
                        shared_root: match &config.shared {
                            Some(shared) => Some(shared.root.clone()),
                            None => None,
                        },
                    },
                )
            },
        }
    }

    /// How the node reads partitions that are there already. What the partitions are decides,
    /// not how the backend is configured: a node with a flight backend can hold partitions in
    /// memory. With no partition there is nothing to read from a server.
    pub fn build_refs_task_builder(&self, refs: Vec<PartitionRef>) -> (r: Result<
        RefsRead,
        DaftError,
    >)
        requires
            flight_refs(refs@, refs@.len() as int) == 0 ==> refs_bytes(
                refs@,
                refs@.len() as int,
            ) <= usize::MAX,
        ensures
            ({
                let count = flight_refs(refs@, refs@.len() as int);
                if count == 0 {
                    &&& r is Ok
                    &&& r->Ok_0 is InMemory
                    &&& r->Ok_0->refs == refs
                    &&& r->Ok_0->total_size_bytes == refs_bytes(refs@, refs@.len() as int)
                } else if count != refs@.len() {
                    r matches Err(e) && e.is_internal_error(
                        mixed_text(self.node_id, count, refs@.len()),
                    )
                } else {
                    &&& r is Ok
                    &&& r->Ok_0 is Flight
                    &&& reads_refs(r->Ok_0->reads@, refs@, self.backend.root())
                }
            }),
    {
        let len: usize = refs.len();
        let mut count: usize = 0;
        let mut i: usize = 0;
        while i < len
            invariant
                i <= len == refs@.len(),
                count == flight_refs(refs@, i as int),
                count <= i,
            decreases len - i,
        {
            if is_flight_ref(&refs[i]) {
                count = count + 1;
            }
            i = i + 1;
        }
        proof {
            lemma_flight_refs(refs@, len as int);
        }
        if count == 0 {
            let mut bytes: usize = 0;
            let mut k: usize = 0;
            while k < len
                invariant
                    k <= len == refs@.len(),
                    bytes == refs_bytes(refs@, k as int),
                    refs_bytes(refs@, len as int) <= usize::MAX,
                decreases len - k,
            {
                proof {
                    lemma_refs_bytes(refs@, k + 1, len as int);
                }
                let size: usize = match &refs[k] {
                    PartitionRef::Flight(f) => f.size_bytes,
                    PartitionRef::InMemory { num_rows: _, size_bytes } => *size_bytes,
                };
                bytes = bytes + size;
                k = k + 1;
            }
            return Ok(RefsRead::InMemory { refs, total_size_bytes: bytes });
        }
        if count != len {
            let mut s: String = owned("Shuffle read for node ");
            push_decimal(&mut s, self.node_id as u64);
            s.append(" got a mix of flight and in-memory partition refs (");
            push_decimal(&mut s, count as u64);
            s.append(" of ");
            push_decimal(&mut s, len as u64);
            s.append(" are flight refs); a stage's outputs must be all one or the other.");
            return Err(DaftError::InternalError(s));
        }
        match read_inputs_from_refs(refs, self.backend.shared_root()) {
            Ok(reads) => Ok(RefsRead::Flight { reads }),
            Err(e) => Err(e),
        }
    }

    /// The inputs of the reduce tasks, where the backend is a flight one. Without it the
    /// partitions stay in memory and are only transposed.
    pub fn emit_read_tasks_from_stream(
        &self,
        outputs: Vec<MapResult>,
        num_partitions: usize,
        aqe_skip_reason: Option<&str>,
        target_bytes: usize,
    ) -> (r: Option<Result<Vec<Vec<FlightShuffleReadInput>>, DaftError>>)
        requires
            self.backend is Flight && aqe_skip_reason is None ==> target_bytes > 0,
        ensures
            match self.backend {
                DistributedShuffleBackend::Ray => r is None,
                DistributedShuffleBackend::Flight(config) => {
                    &&& r is Some
                    &&& match fold_failure(
                        outputs@,
                        num_partitions,
                        config.shuffle_id,
                        outputs@.len() as int,
                    ) {
                        Some(FoldFailure::Upstream { at }) => r->0 is Err && r->0->Err_0
                            == outputs@[at]->Err_0,
                        Some(FoldFailure::Refused { text }) => r->0 matches Err(e)
                            && e.is_internal_error(text),
                        None => {
                            &&& r->0 is Ok
                            &&& exists|servers: Seq<ServerInputs>|
                                #![trigger serves(servers, outputs@)]
                                {
                                    &&& serves(servers, outputs@)
                                    &&& reads_groups(
                                        r->0->Ok_0@,
                                        bucket_groups(
                                            bucket_sizes(outputs@, num_partitions),
                                            aqe_skip_reason is None,
                                            target_bytes,
                                        ),
                                        config.shuffle_id,
                                        aqe_skip_reason is None,
                                        servers,
                                        self.backend.root(),
                                    )
                                }
                        },
                    }
                },
            },
    {
        match &self.backend {
            DistributedShuffleBackend::Ray => None,
            DistributedShuffleBackend::Flight(config) => Some(
                fold_outputs_from_stream(
                    outputs,
                    num_partitions,
                    config.shuffle_id,
                    self.backend.shared_root(),
                    aqe_skip_reason,
                    target_bytes,
                ),
            ),
        }
    }
}

/// What is written by partition is never placed on a shared tree, and what is written as a
/// combined file is placed where the configuration says.
pub proof fn only_combined_files_are_shared(
    given: DistributedShuffleBackend,
    write_kind: ShuffleWriteKind,
    id: u64,
    got: DistributedShuffleBackend,
)
    requires
        stamped(given, write_kind, id, got),
    ensures
        write_kind == ShuffleWriteKind::PerPartition ==> got.root() is None,
        write_kind == ShuffleWriteKind::CombinedFile ==> got.root() == given.root(),
{
}

/// A flight shuffle keeps all that is configured, under its own number; only the shared tree is
/// left out where the output is written by partition.
pub proof fn stamping_keeps_the_configuration(
    config: FlightShuffleBackendConfig,
    write_kind: ShuffleWriteKind,
    id: u64,
    got: DistributedShuffleBackend,
)
    requires
        stamped(DistributedShuffleBackend::Flight(config), write_kind, id, got),
    ensures
        got is Flight,
        got->Flight_0.shuffle_id == id,
        got->Flight_0.shuffle_dirs == config.shuffle_dirs,
        got->Flight_0.compression == config.compression,
        write_kind == ShuffleWriteKind::CombinedFile ==> got->Flight_0.shared == config.shared,
        write_kind == ShuffleWriteKind::PerPartition ==> got->Flight_0.shared is None,
        got.root() is Some <==> got->Flight_0.shared is Some,
        got->Flight_0.shared matches Some(shared) ==> got.root() == Some(shared.root@),
{
}

/// Two shuffles never share a directory.
pub proof fn shuffles_have_directories_of_their_own(base: Seq<char>, a: u64, b: u64)
    ensures
        shuffle_dir(base, a) == shuffle_dir(base, b) <==> a == b,
{
    if shuffle_dir(base, a) == shuffle_dir(base, b) {
        let front = base + "/daft_shuffle/"@;
        assert(shuffle_dir(base, a).skip(front.len() as int) =~= decimal(a as nat));
        assert(shuffle_dir(base, b).skip(front.len() as int) =~= decimal(b as nat));
        crate::text::decimal_injective(a as nat, b as nat);
    }
}

/// Partitions of a flight write, and bytes, are counted partition by partition.
pub proof fn partitions_are_counted(refs: Seq<PartitionRef>, n: int)
    requires
        0 <= n,
    ensures
        flight_refs(refs, 0) == 0,
        refs_bytes(refs, 0) == 0,
        refs[n] is Flight ==> flight_refs(refs, n + 1) == flight_refs(refs, n) + 1,
        refs[n] is InMemory ==> flight_refs(refs, n + 1) == flight_refs(refs, n),
        refs[n] matches PartitionRef::Flight(f) ==> refs_bytes(refs, n + 1) == refs_bytes(refs, n)
            + f.size_bytes,
        refs[n] matches PartitionRef::InMemory { num_rows: _, size_bytes } ==> refs_bytes(
            refs,
            n + 1,
        ) == refs_bytes(refs, n) + size_bytes,
{
}

} // verus!
