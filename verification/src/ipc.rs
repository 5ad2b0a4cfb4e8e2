//! Writers of record batches, one for each file.
use vstd::prelude::*;

use crate::shuffle_file::EioRetryPolicy;
use crate::text::{decimal, push_decimal};

verus! {

/// How record batches are compressed.
#[derive(Clone, Copy, Debug, PartialEq, Eq, Structural)]
pub enum CompressionType {
    Lz4Frame,
    Zstd,
}

/// What a write came to.
#[derive(Clone, Copy, Debug, PartialEq, Eq, Structural)]
pub struct WriteResult {
    pub bytes_written: usize,
    pub rows_written: usize,
}

/// The writer of one file. The file comes into being with the first write.
#[derive(Debug)]
pub struct IPCWriter {
    pub bytes_written: usize,
    pub file_path: String,
    pub compression: Option<CompressionType>,
    pub retry_policy: EioRetryPolicy,
    /// Whether the file is open.
    pub is_open: bool,
}

impl IPCWriter {
    /// A writer that has written nothing.
    pub fn new(file_path: String, compression: Option<CompressionType>) -> (w: IPCWriter)
        ensures
            w.bytes_written == 0,
            w.file_path == file_path,
            w.compression == compression,
            w.retry_policy == (EioRetryPolicy {
                max_retries: 0,
                initial_backoff_ms: 0,
                max_backoff_ms: 0,
            }),
            !w.is_open,
    {
        IPCWriter {
            bytes_written: 0,
            file_path,
            compression,
            retry_policy: EioRetryPolicy::default(),
            is_open: false,
        }
    }

    /// Whether the file has to be created before the next write.
    pub fn get_or_create_writer(&mut self) -> (create: bool)
        ensures
            create == !old(self).is_open,
            *final(self) == (IPCWriter { is_open: true, ..*old(self) }),
    {
        let create: bool = !self.is_open;
        self.is_open = true;
        create
    }

    /// Takes note that the file could not be created or written. What was open is given up: the
    /// next write creates the file anew, and there is nothing to finish.
    pub fn write_failed(&mut self)
        ensures
            *final(self) == (IPCWriter { is_open: false, ..*old(self) }),
    {
        self.is_open = false;
    }

    /// Takes note of what was written. How many bytes that gave in the file is not known: the
    /// size of the rows counts.
    pub fn write(&mut self, size_bytes: usize, rows: usize) -> (r: WriteResult)
        requires
            old(self).bytes_written + size_bytes <= usize::MAX,
        ensures
            r == (WriteResult { bytes_written: size_bytes, rows_written: rows }),
            *final(self) == (IPCWriter {
                bytes_written: (old(self).bytes_written + size_bytes) as usize,
                ..*old(self)
            }),
    {
        self.bytes_written = self.bytes_written + size_bytes;
        WriteResult { bytes_written: size_bytes, rows_written: rows }
    }

    /// Whether there is a file to finish. Its path is returned in any case.
    pub fn close(&mut self) -> (finish: bool)
        ensures
            finish == old(self).is_open,
            *final(self) == (IPCWriter { is_open: false, ..*old(self) }),
    {
        let finish: bool = self.is_open;
        self.is_open = false;
        finish
    }

    pub fn bytes_written(&self) -> (n: usize)
        ensures
            n == self.bytes_written,
    {
        self.bytes_written
    }

    /// The bytes of each file; there is one.
    pub fn bytes_per_file(&self) -> (v: Vec<usize>)
        ensures
            v@ == seq![self.bytes_written],
    {
        let mut v: Vec<usize> = Vec::new();
        v.push(self.bytes_written);
        assert(v@ =~= seq![self.bytes_written]);
        v
    }
}

/// Makes the writers of the files in a directory.
#[derive(Debug)]
pub struct IPCWriterFactory {
    pub retry_policy: EioRetryPolicy,
    pub dir: String,
    pub compression: Option<CompressionType>,
}

/// The path of a file in a directory, by number.
pub open spec fn file_path(dir: Seq<char>, file_idx: usize) -> Seq<char> {
    dir + "/"@ + decimal(file_idx as nat) + ".arrow"@
}

impl IPCWriterFactory {
    /// Nothing is repeated, unless a policy says so.
    pub fn new(dir: String, compression: Option<CompressionType>) -> (f: IPCWriterFactory)
        ensures
            f.dir == dir,
            f.compression == compression,
            f.retry_policy == (EioRetryPolicy {
                max_retries: 0,
                initial_backoff_ms: 0,
                max_backoff_ms: 0,
            }),
    {
        IPCWriterFactory { retry_policy: EioRetryPolicy::default(), dir, compression }
    }

    pub fn with_retry_policy(self, policy: EioRetryPolicy) -> (f: IPCWriterFactory)
        ensures
            f == (IPCWriterFactory { retry_policy: policy, ..self }),
    {
        IPCWriterFactory { retry_policy: policy, dir: self.dir, compression: self.compression }
    }

    /// The writer of a file, by number.
    pub fn create_writer(&self, file_idx: usize) -> (w: IPCWriter)
        ensures
            w.file_path@ == file_path(self.dir@, file_idx),
            w == (IPCWriter {
                bytes_written: 0,
                file_path: w.file_path,
                compression: self.compression,
                retry_policy: self.retry_policy,
                is_open: false,
            }),
    {
        let mut path: String = self.dir.clone();
        path.append("/");
        push_decimal(&mut path, file_idx as u64);
        path.append(".arrow");
        let mut writer: IPCWriter = IPCWriter::new(path, self.compression);
        writer.retry_policy = self.retry_policy;
        writer
    }
}

} // verus!
