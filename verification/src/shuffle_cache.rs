//! Writing the partitions of a shuffle to files, one directory for each partition.
use std::sync::Arc;

use vstd::prelude::*;

use crate::backend::shuffle_dir;
use crate::error::{shared_error, DaftError};
use crate::flight::FlightPartitionRef;
use crate::text::{decimal, hex, owned, push_decimal, push_hex};

verus! {

/// How large a message is at least, where there is enough to write, in bytes.
pub const CHUNK_TARGET_BYTES: usize = 4_194_304;

/// How much is written at a time, of what is there already, in bytes.
pub const READY_WRITE_GROUP_BYTES: usize = 33_554_432;

/// How many inputs are written at a time, of those that are there already.
pub const READY_WRITE_GROUP_PARTS: usize = 32;

/// How large a first input is at most that waits for a second one, in bytes. It may be the last,
/// and a writer of its own is not worth starting for it.
pub const DEFER_FIRST_WRITE_BYTES: usize = 8_192;

/// The directories of a shuffle.
pub fn get_shuffle_dirs(dirs: &Vec<String>, shuffle_id: u64) -> (out: Vec<String>)
    ensures
        out@.len() == dirs@.len(),
        forall|i: int|
            0 <= i < dirs@.len() ==> (#[trigger] out@[i])@ == shuffle_dir(dirs@[i]@, shuffle_id),
{
    let mut out: Vec<String> = Vec::new();
    let mut i: usize = 0;
    while i < dirs.len()
        invariant
            i <= dirs@.len(),
            out@.len() == i,
            forall|k: int|
                0 <= k < i ==> (#[trigger] out@[k])@ == shuffle_dir(dirs@[k]@, shuffle_id),
        decreases dirs@.len() - i,
    {
        let mut dir: String = dirs[i].clone();
        dir.append("/daft_shuffle/");
        push_decimal(&mut dir, shuffle_id);
        out.push(dir);
        i = i + 1;
    }
    out
}

/// The directory of one attempt at one partition, below a directory of its shuffle.
pub open spec fn partition_dir(dir: Seq<char>, partition_ref_id: u64, attempt: u64) -> Seq<char> {
    dir + "/partition_ref_"@ + decimal(partition_ref_id as nat) + "_"@ + hex(attempt as nat, 16)
}

/// The directory of one attempt at one partition. Two attempts can be under way on one node, and
/// number their files alike; so each has a directory of its own. Partitions are spread over the
/// directories of the shuffle.
pub fn get_partition_dir(shuffle_dirs: &Vec<String>, partition_ref_id: u64, attempt: u64) -> (out:
    String)
    requires
        shuffle_dirs@.len() > 0,
    ensures
        out@ == partition_dir(
            shuffle_dirs@[(partition_ref_id as usize) as int % shuffle_dirs@.len() as int]@,
            partition_ref_id,
            attempt,
        ),
{
    let at: usize = (partition_ref_id as usize) % shuffle_dirs.len();
    let mut out: String = shuffle_dirs[at].clone();
    out.append("/partition_ref_");
    push_decimal(&mut out, partition_ref_id);
    out.append("_");
    push_hex(&mut out, attempt, 16);
    out
}

/// Names one partition of one map input: the input in the high half, the partition in the low
/// half.
pub fn partition_ref_id(input_id: u32, partition_idx: usize) -> (id: u64)
    ensures
        id == ((input_id as u64) << 32) | (partition_idx as u64),
        partition_idx < 0x1_0000_0000 ==> id == input_id * 0x1_0000_0000 + partition_idx,
{
    let high: u64 = input_id as u64;
    let low: u64 = partition_idx as u64;
    assert(high < 0x1_0000_0000 && low < 0x1_0000_0000 ==> (high << 32) | low == high
        * 0x1_0000_0000 + low) by (bit_vector);
    ((input_id as u64) << 32) | partition_idx as u64
}

/// The name of a partition leads back to its map input and its index, as long as the index fits
/// in its half.
pub proof fn partition_names_lead_back(f: FlightPartitionRef, input_id: u32, partition_idx: usize)
    requires
        partition_idx < 0x1_0000_0000,
        f.partition_ref_id == ((input_id as u64) << 32) | (partition_idx as u64),
    ensures
        f.input_id() == input_id,
        f.partition_idx() == partition_idx,
{
    let high: u64 = input_id as u64;
    let low: u64 = partition_idx as u64;
    assert(high < 0x1_0000_0000 && low < 0x1_0000_0000 ==> ((high << 32) | low) / 0x1_0000_0000
        == high && ((high << 32) | low) % 0x1_0000_0000 == low) by (bit_vector);
}

/// The error for a directory that is not in a file system.
pub fn check_dir(dir: &str, is_file_path: bool) -> (r: Result<(), DaftError>)
    ensures
        is_file_path ==> r is Ok,
        !is_file_path ==> (r matches Err(e) && e.is_value_error(
            "ShuffleCache only supports file paths, got: "@ + dir@,
        )),
{
    if is_file_path {
        return Ok(());
    }
    let mut s: String = owned("ShuffleCache only supports file paths, got: ");
    s.append(dir);
    Err(DaftError::ValueError(s))
}

/// What a writer has written.
#[derive(Debug)]
pub struct WriterTaskResult {
    pub bytes_per_file: Vec<usize>,
    pub total_rows_written: usize,
    pub total_bytes_written: usize,
    pub file_paths: Vec<String>,
}

/// A partition that is in files.
#[derive(Debug)]
pub struct PartitionCache<T> {
    pub partition_ref_id: u64,
    pub schema: T,
    pub bytes_per_file: Vec<usize>,
    pub file_paths: Vec<String>,
    pub num_rows: usize,
    pub size_bytes: usize,
    /// Where the partition is in each file; nothing, where it is the whole file.
    pub byte_ranges: Option<Vec<(u64, u64)>>,
    /// The checksum of each of those ranges. Whole files have none: the end of their stream is
    /// marked.
    pub crc32s: Option<Vec<u32>>,
}

/// How far the writer of a partition is.
#[derive(Clone, Copy, Debug, PartialEq, Eq, Structural)]
pub enum WriterStage {
    /// It is not started; whether nothing was pushed yet.
    Pending { first_input: bool },
    /// It runs.
    Running,
    /// It was closed.
    Closed,
}

/// A partition that is being written.
#[derive(Debug)]
pub struct InProgressShuffleCache {
    pub partition_ref_id: u64,
    pub write_path: String,
    pub stage: WriterStage,
    /// Why it could not be written.
    pub error: Option<Arc<DaftError>>,
}

/// How a partition is closed.
#[derive(Clone, Copy, Debug, PartialEq, Eq, Structural)]
pub enum CloseStep {
    /// Its writer is waited for.
    AwaitWriter,
    /// Its writer was never started, and runs to its end now.
    RunWriter,
    /// It has no writer any more.
    Nothing,
}

impl InProgressShuffleCache {
    /// A partition of which nothing is written yet.
    pub fn new(partition_ref_id: u64, write_path: String) -> (c: InProgressShuffleCache)
        ensures
            c.partition_ref_id == partition_ref_id,
            c.write_path == write_path,
            c.stage == (WriterStage::Pending { first_input: true }),
            c.error is None,
    {
        InProgressShuffleCache {
            partition_ref_id,
            write_path,
            stage: WriterStage::Pending { first_input: true },
            error: None,
        }
    }

    /// Whether an input starts the writer: a small first one does not.
    pub open spec fn starts_writer(&self, size_bytes: usize) -> bool {
        self.stage matches WriterStage::Pending { first_input } && !(first_input && size_bytes
            <= DEFER_FIRST_WRITE_BYTES)
    }

    /// Whether an input of this size starts the writer. It is sent to the writer in any case.
    pub fn push_partition_data(&mut self, size_bytes: usize) -> (start: bool)
        ensures
            start == old(self).starts_writer(size_bytes),
            *final(self) == (InProgressShuffleCache {
                stage: if start {
                    WriterStage::Running
                } else if old(self).stage is Pending {
                    WriterStage::Pending { first_input: false }
                } else {
                    old(self).stage
                },
                ..*old(self)
            }),
    {
        match self.stage {
            WriterStage::Pending { first_input } => {
                if first_input && size_bytes <= DEFER_FIRST_WRITE_BYTES {
                    self.stage = WriterStage::Pending { first_input: false };
                    false
                } else {
                    self.stage = WriterStage::Running;
                    true
                }
            },
            _ => false,
        }
    }

    /// What a push that could not be sent returns, once the partition is closed: the reason of
    /// the writer, where it has one.
    pub fn push_failed<T>(closed: Result<PartitionCache<T>, DaftError>, reason: &str) -> (e:
        DaftError)
        ensures
            match closed {
                Err(error) => e == error,
                Ok(_) => e.is_internal_error(reason@),
            },
    {
        match closed {
            Err(error) => error,
            Ok(_) => DaftError::internal_error(reason),
        }
    }

    /// Begins to close the partition. What failed once fails again, with the same error.
    pub fn begin_close(&mut self) -> (r: Result<CloseStep, DaftError>)
        ensures
            match old(self).error {
                Some(error) => {
                    &&& r == Err::<CloseStep, DaftError>(DaftError::Shared(error))
                    &&& *final(self) == *old(self)
                },
                None => {
                    &&& r == Ok::<CloseStep, DaftError>(
                        match old(self).stage {
                            WriterStage::Pending { first_input: _ } => CloseStep::RunWriter,
                            WriterStage::Running => CloseStep::AwaitWriter,
                            WriterStage::Closed => CloseStep::Nothing,
                        },
                    )
                    &&& *final(self) == (InProgressShuffleCache {
                        stage: WriterStage::Closed,
                        ..*old(self)
                    })
                },
            },
    {
        match &self.error {
            Some(error) => {
                return Err(DaftError::Shared(Arc::clone(error)));
            },
            None => {},
        }
        let step: CloseStep = match self.stage {
            WriterStage::Pending { first_input: _ } => CloseStep::RunWriter,
            WriterStage::Running => CloseStep::AwaitWriter,
            WriterStage::Closed => CloseStep::Nothing,
        };
        self.stage = WriterStage::Closed;
        Ok(step)
    }

    /// Takes what the writer returned, once `begin_close` has let the partition be closed.
    pub fn close<T>(&mut self, outcome: Result<Option<WriterTaskResult>, DaftError>, schema: T) -> (
    r: Result<PartitionCache<T>, DaftError>)
        requires
            old(self).error is None,
        ensures
            match outcome {
                Err(error) => {
                    &&& r is Err
                    &&& r->Err_0 is Shared
                    &&& error.in_io_context(
                        "write or close"@,
                        old(self).write_path@,
                        shared_error(r->Err_0),
                    )
                    &&& *final(self) == (InProgressShuffleCache {
                        error: Some(r->Err_0->Shared_0),
                        ..*old(self)
                    })
                },
                Ok(None) => {
                    &&& r matches Err(e) && e.is_internal_error("No writer result found"@)
                    &&& *final(self) == *old(self)
                },
                Ok(Some(result)) => {
                    &&& r == Ok::<PartitionCache<T>, DaftError>(
                        PartitionCache {
                            partition_ref_id: old(self).partition_ref_id,
                            schema,
                            bytes_per_file: result.bytes_per_file,
                            file_paths: result.file_paths,
                            num_rows: result.total_rows_written,
                            size_bytes: result.total_bytes_written,
                            byte_ranges: None,
                            crc32s: None,
                        },
                    )
                    &&& *final(self) == *old(self)
                },
            },
    {
        match outcome {
            Err(error) => {
                let failure: Arc<DaftError> = Arc::new(
                    error.with_shuffle_io_context("write or close", self.write_path.as_str()),
                );
                self.error = Some(Arc::clone(&failure));
                Err(DaftError::Shared(failure))
            },
            Ok(None) => Err(DaftError::internal_error("No writer result found")),
            Ok(Some(result)) => Ok(
                PartitionCache {
                    partition_ref_id: self.partition_ref_id,
                    schema,
                    bytes_per_file: result.bytes_per_file,
                    file_paths: result.file_paths,
                    num_rows: result.total_rows_written,
                    size_bytes: result.total_bytes_written,
                    byte_ranges: None,
                    crc32s: None,
                },
            ),
        }
    }
}

/// An input that waits to be written.
#[derive(Clone, Copy, Debug, PartialEq, Eq, Structural)]
pub struct ReadyPart {
    pub bytes: usize,
    pub rows: usize,
}

/// The bytes of the inputs from `from` up to `to`.
pub open spec fn ready_bytes(queue: Seq<ReadyPart>, from: int, to: int) -> nat
    decreases to - from,
{
    if to <= from {
        0
    } else {
        ready_bytes(queue, from, to - 1) + queue[to - 1].bytes as nat
    }
}

/// The rows of the inputs from `from` up to `to`.
pub open spec fn ready_rows(queue: Seq<ReadyPart>, from: int, to: int) -> nat
    decreases to - from,
{
    if to <= from {
        0
    } else {
        ready_rows(queue, from, to - 1) + queue[to - 1].rows as nat
    }
}

/// Whether the inputs from `from` up to `to` are not yet enough for one write.
pub open spec fn wants_more(queue: Seq<ReadyPart>, from: int, to: int) -> bool {
    to - from < READY_WRITE_GROUP_PARTS && ready_bytes(queue, from, to) < READY_WRITE_GROUP_BYTES
}

/// Where the write that begins at `from` ends, if it has reached `to`: it takes what is there,
/// as long as it is not enough, and waits for nothing.
pub open spec fn group_end(queue: Seq<ReadyPart>, from: int, to: int) -> int
    decreases queue.len() - to,
{
    if to < queue.len() && wants_more(queue, from, to) {
        group_end(queue, from, to + 1)
    } else {
        to
    }
}

/// What is written at a time.
#[derive(Clone, Copy, Debug, PartialEq, Eq, Structural)]
pub struct WriteGroup {
    /// Behind the last of the inputs.
    pub end: usize,
    pub bytes: usize,
    pub rows: usize,
}

proof fn lemma_ready_grows(queue: Seq<ReadyPart>, from: int, n: int, m: int)
    requires
        n <= m,
    ensures
        ready_bytes(queue, from, n) <= ready_bytes(queue, from, m),
        ready_rows(queue, from, n) <= ready_rows(queue, from, m),
    decreases m - n,
{
    if n < m {
        lemma_ready_grows(queue, from, n, m - 1);
    }
}

/// What is written next, of the inputs that are there from `from` on.
pub fn next_group(queue: &Vec<ReadyPart>, from: usize) -> (g: WriteGroup)
    requires
        from < queue@.len(),
        ready_bytes(queue@, from as int, queue@.len() as int) <= usize::MAX,
        ready_rows(queue@, from as int, queue@.len() as int) <= usize::MAX,
    ensures
        g.end == group_end(queue@, from as int, from + 1),
        from < g.end <= queue@.len(),
        g.bytes == ready_bytes(queue@, from as int, g.end as int),
        g.rows == ready_rows(queue@, from as int, g.end as int),
{
    let count: usize = queue.len();
    assert(from < count);
    let mut end: usize = from + 1;
    let mut bytes: usize = queue[from].bytes;
    let mut rows: usize = queue[from].rows;
    assert(ready_bytes(queue@, from as int, from as int) == 0);
    assert(ready_rows(queue@, from as int, from as int) == 0);
    while end < queue.len() && end - from < READY_WRITE_GROUP_PARTS && bytes
        < READY_WRITE_GROUP_BYTES
        invariant
            from < end <= queue@.len(),
            bytes == ready_bytes(queue@, from as int, end as int),
            rows == ready_rows(queue@, from as int, end as int),
            ready_bytes(queue@, from as int, queue@.len() as int) <= usize::MAX,
            ready_rows(queue@, from as int, queue@.len() as int) <= usize::MAX,
            group_end(queue@, from as int, from + 1) == group_end(queue@, from as int, end as int),
        decreases queue@.len() - end,
    {
        proof {
            lemma_ready_grows(queue@, from as int, end + 1, queue@.len() as int);
        }
        bytes = bytes + queue[end].bytes;
        rows = rows + queue[end].rows;
        end = end + 1;
    }
    WriteGroup { end, bytes, rows }
}

/// Whether the last input has been taken, so that its write also closes the file.
pub fn write_closes(channel_closed: bool, queue_empty: bool) -> (b: bool)
    ensures
        b == (channel_closed && queue_empty),
{
    channel_closed && queue_empty
}

/// A write takes inputs in order, at least one and no more than allowed; with one less it would
/// not have been enough.
pub proof fn groups_are_bounded(queue: Seq<ReadyPart>, from: int, to: int)
    requires
        0 <= from < to <= queue.len(),
        to - from <= READY_WRITE_GROUP_PARTS,
    ensures
        to <= group_end(queue, from, to) <= queue.len(),
        group_end(queue, from, to) - from <= READY_WRITE_GROUP_PARTS,
        to < group_end(queue, from, to) ==> ready_bytes(
            queue,
            from,
            group_end(queue, from, to) - 1,
        ) < READY_WRITE_GROUP_BYTES,
        group_end(queue, from, to) < queue.len() ==> !wants_more(
            queue,
            from,
            group_end(queue, from, to),
        ),
    decreases queue.len() - to,
{
    if to < queue.len() && wants_more(queue, from, to) {
        groups_are_bounded(queue, from, to + 1);
    }
}

proof fn lemma_ready_adds(queue: Seq<ReadyPart>, from: int, mid: int, to: int)
    requires
        from <= mid <= to,
    ensures
        ready_bytes(queue, from, to) == ready_bytes(queue, from, mid) + ready_bytes(queue, mid, to),
        ready_rows(queue, from, to) == ready_rows(queue, from, mid) + ready_rows(queue, mid, to),
    decreases to - mid,
{
    if mid < to {
        lemma_ready_adds(queue, from, mid, to - 1);
    }
}

/// What a writer writes of a queue that is full: the ends of its writes, and what they come to.
#[derive(Debug)]
pub struct WritePlan {
    pub ends: Vec<usize>,
    pub total_rows_written: usize,
    pub total_bytes_written: usize,
}

/// Where the writes of a queue end, from `from` on.
pub open spec fn write_ends(queue: Seq<ReadyPart>, from: int) -> Seq<int>
    decreases queue.len() - from,
{
    if from < 0 || from >= queue.len() {
        Seq::empty()
    } else {
        let end = group_end(queue, from, from + 1);
        if end <= from || end > queue.len() {
            Seq::empty()
        } else {
            seq![end] + write_ends(queue, end)
        }
    }
}

/// Writes all that is in a queue.
pub fn writer_task(queue: &Vec<ReadyPart>) -> (p: WritePlan)
    requires
        ready_bytes(queue@, 0, queue@.len() as int) <= usize::MAX,
        ready_rows(queue@, 0, queue@.len() as int) <= usize::MAX,
    ensures
        p.ends@.map_values(|e: usize| e as int) == write_ends(queue@, 0),
        p.total_bytes_written == ready_bytes(queue@, 0, queue@.len() as int),
        p.total_rows_written == ready_rows(queue@, 0, queue@.len() as int),
{
    let mut ends: Vec<usize> = Vec::new();
    let mut rows: usize = 0;
    let mut bytes: usize = 0;
    let mut from: usize = 0;
    assert(ends@.map_values(|e: usize| e as int) + write_ends(queue@, 0) =~= write_ends(
        queue@,
        0,
    ));
    while from < queue.len()
        invariant
            from <= queue@.len(),
            bytes == ready_bytes(queue@, 0, from as int),
            rows == ready_rows(queue@, 0, from as int),
            ready_bytes(queue@, 0, queue@.len() as int) <= usize::MAX,
            ready_rows(queue@, 0, queue@.len() as int) <= usize::MAX,
            ends@.map_values(|e: usize| e as int) + write_ends(queue@, from as int) == write_ends(
                queue@,
                0,
            ),
        decreases queue@.len() - from,
    {
        proof {
            lemma_ready_adds(queue@, 0, from as int, queue@.len() as int);
        }
        let group: WriteGroup = next_group(queue, from);
        proof {
            lemma_ready_adds(queue@, 0, from as int, group.end as int);
            lemma_ready_grows(queue@, 0, group.end as int, queue@.len() as int);
        }
        let ghost before = ends@;
        ends.push(group.end);
        proof {
            assert(ends@.map_values(|e: usize| e as int) + write_ends(queue@, group.end as int)
                =~= before.map_values(|e: usize| e as int) + (seq![group.end as int] + write_ends(
                queue@,
                group.end as int,
            )));
        }
        bytes = bytes + group.bytes;
        rows = rows + group.rows;
        from = group.end;
    }
    assert(ends@.map_values(|e: usize| e as int) + write_ends(queue@, from as int) =~= ends@.map_values(
        |e: usize| e as int,
    ));
    WritePlan { ends, total_rows_written: rows, total_bytes_written: bytes }
}

/// The writer of a partition is started by its first input of more than 8192 bytes, or by its
/// second one; and never twice.
pub proof fn small_first_inputs_wait(c: InProgressShuffleCache, size_bytes: usize)
    ensures
        c.stage is Running || c.stage is Closed ==> !c.starts_writer(size_bytes),
        c.stage == (WriterStage::Pending { first_input: true }) ==> (c.starts_writer(size_bytes)
            <==> size_bytes > 8_192),
        c.stage == (WriterStage::Pending { first_input: false }) ==> c.starts_writer(size_bytes),
{
}

/// Bytes and rows that wait are counted input by input.
pub proof fn waiting_inputs_add_up(queue: Seq<ReadyPart>, from: int, to: int)
    requires
        from <= to,
    ensures
        ready_bytes(queue, from, from) == 0,
        ready_rows(queue, from, from) == 0,
        ready_bytes(queue, from, to + 1) == ready_bytes(queue, from, to) + queue[to].bytes,
        ready_rows(queue, from, to + 1) == ready_rows(queue, from, to) + queue[to].rows,
{
}

/// A write takes one input at least and 32 at most. It takes another one exactly as long as one
/// is there, it has fewer than 32, and they have less than 32 MiB.
pub proof fn writes_take_what_is_there(queue: Seq<ReadyPart>, from: int)
    requires
        0 <= from < queue.len(),
    ensures
        ({
            let end = group_end(queue, from, from + 1);
            &&& from < end <= queue.len()
            &&& end - from <= 32
            &&& end > from + 1 ==> ready_bytes(queue, from, end - 1) < 33_554_432
            &&& end < queue.len() ==> end - from == 32 || ready_bytes(queue, from, end)
                >= 33_554_432
        }),
{
    groups_are_bounded(queue, from, from + 1);
}

/// Writes take the whole queue: each begins where the one before it ended, and the last ends
/// with the queue.
pub proof fn writes_take_the_whole_queue(queue: Seq<ReadyPart>, from: int)
    requires
        0 <= from < queue.len(),
    ensures
        write_ends(queue, from).len() > 0,
        write_ends(queue, from)[0] == group_end(queue, from, from + 1),
        write_ends(queue, from).last() == queue.len(),
        forall|k: int|
            0 <= k < write_ends(queue, from).len() - 1 ==> #[trigger] write_ends(queue, from)[k + 1]
                == group_end(queue, write_ends(queue, from)[k], write_ends(queue, from)[k] + 1),
    decreases queue.len() - from,
{
    writes_take_what_is_there(queue, from);
    let end = group_end(queue, from, from + 1);
    let all = write_ends(queue, from);
    let rest = write_ends(queue, end);
    assert(all == seq![end] + rest);
    if end < queue.len() {
        writes_take_the_whole_queue(queue, end);
        assert forall|k: int| 0 <= k < all.len() - 1 implies #[trigger] all[k + 1] == group_end(
            queue,
            all[k],
            all[k] + 1,
        ) by {
            if k > 0 {
                assert(all[k + 1] == rest[(k - 1) + 1]);
                assert(all[k] == rest[k - 1]);
            } else {
                assert(all[1] == rest[0]);
            }
        }
    } else {
        assert(rest =~= Seq::empty());
    }
}

/// Two attempts at a partition never share a directory.
pub proof fn attempts_have_directories_of_their_own(
    dir: Seq<char>,
    partition_ref_id: u64,
    a: u64,
    b: u64,
)
    ensures
        partition_dir(dir, partition_ref_id, a) == partition_dir(dir, partition_ref_id, b) <==> a
            == b,
{
    if partition_dir(dir, partition_ref_id, a) == partition_dir(dir, partition_ref_id, b) {
        let front = dir + "/partition_ref_"@ + decimal(partition_ref_id as nat) + "_"@;
        let n = front.len() as int;
        assert(partition_dir(dir, partition_ref_id, a).skip(n) =~= hex(a as nat, 16));
        assert(partition_dir(dir, partition_ref_id, b).skip(n) =~= hex(b as nat, 16));
        assert(vstd::arithmetic::power::pow(16, 16) == 0x1_0000_0000_0000_0000) by {
            reveal_with_fuel(vstd::arithmetic::power::pow, 17);
        }
        crate::text::hexadecimal_digits_tell_numbers_apart(a as nat, b as nat, 16);
    }
}

} // verus!
