//! What reading from a shared tree came to: one summary for each stream.
use vstd::prelude::*;

verus! {

/// What a stream reads, and whether that is counted.
#[derive(Clone, Copy, Debug)]
pub struct ReadStats {
    pub enabled: bool,
    pub shuffle_id: u64,
    pub map_files: usize,
    pub coalesced: bool,
    /// When it was started, in microseconds.
    pub started: Option<u128>,
}

/// What is counted. Times are in microseconds.
#[derive(Clone, Copy, Debug, PartialEq, Eq, Structural)]
pub struct ReadCounters {
    pub opens: u64,
    pub completed_files: u64,
    pub index_hits: u64,
    pub index_misses: u64,
    pub ranges: u64,
    pub empty_ranges: u64,
    pub ranges_under_64k: u64,
    pub ranges_under_1m: u64,
    pub indexed_bytes: u64,
    pub verified_bytes: u64,
    pub messages: u64,
    pub slot_wait_us: u64,
    pub open_us: u64,
    pub index_us: u64,
    pub read_poll_us: u64,
}

impl Default for ReadCounters {
    fn default() -> (c: ReadCounters)
        ensures
            c.opens == 0 && c.completed_files == 0 && c.index_hits == 0 && c.index_misses == 0,
            c.ranges == 0 && c.empty_ranges == 0,
            c.ranges_under_64k == 0 && c.ranges_under_1m == 0,
            c.indexed_bytes == 0 && c.verified_bytes == 0 && c.messages == 0,
            c.slot_wait_us == 0 && c.open_us == 0 && c.index_us == 0 && c.read_poll_us == 0,
    {
        ReadCounters {
            opens: 0,
            completed_files: 0,
            index_hits: 0,
            index_misses: 0,
            ranges: 0,
            empty_ranges: 0,
            ranges_under_64k: 0,
            ranges_under_1m: 0,
            indexed_bytes: 0,
            verified_bytes: 0,
            messages: 0,
            slot_wait_us: 0,
            open_us: 0,
            index_us: 0,
            read_poll_us: 0,
        }
    }
}

impl ReadStats {
    /// Adds to a counter, where counting is on. A counter that overflows begins anew.
    pub fn add(&self, counter: &mut u64, value: u64)
        ensures
            *final(counter) == (if self.enabled {
                old(counter).wrapping_add(value)
            } else {
                *old(counter)
            }),
    {
        if self.enabled {
            *counter = counter.wrapping_add(value);
        }
    }

    /// Whether all files were read to their end.
    pub fn is_complete(&self, counters: &ReadCounters) -> (b: bool)
        ensures
            b == (counters.completed_files == self.map_files),
    {
        counters.completed_files == self.map_files as u64
    }
}

/// The microseconds since a point in time; none where there is no such point.
pub fn elapsed_us(started: Option<u128>, now: u128) -> (us: u64)
    ensures
        us == (match started {
            None => 0int,
            Some(t) => if now <= t {
                0int
            } else if now - t > u64::MAX {
                u64::MAX as int
            } else {
                now - t
            },
        }),
{
    match started {
        None => 0,
        Some(t) => {
            if now <= t {
                return 0;
            }
            let us: u128 = now - t;
            if us > u64::MAX as u128 {
                u64::MAX
            } else {
                us as u64
            }
        },
    }
}

} // verus!
