//! Planning which bytes of a Parquet row group to fetch for a selection of its rows.
use std::ops::Range;

use vstd::prelude::*;

use crate::text::{owned, push_decimal};

verus! {

/// Ranges with at most so many bytes between them are fetched together.
pub const PAGE_COALESCE_GAP: u64 = 65_536;

/// A column that needs more ranges than this is fetched as a whole.
pub const MAX_PAGE_RANGES: usize = 32;

/// Where one data page of a column chunk lies.
#[derive(Clone, Copy, Debug, PartialEq, Eq, Structural)]
pub struct PageLocation {
    pub offset: i64,
    pub compressed_page_size: i32,
    pub first_row_index: i64,
}

/// A piece of a column chunk: `len` bytes from `start`, of leaf column `leaf`.
#[derive(Clone, Copy, Debug, PartialEq, Eq, Structural)]
pub struct LeafRange {
    pub leaf: usize,
    pub start: u64,
    pub len: u64,
}

/// A run of rows that are all selected or all skipped.
#[derive(Clone, Copy, Debug, PartialEq, Eq, Structural)]
pub struct RowSelector {
    pub row_count: usize,
    pub skip: bool,
}

/// What the footer of a file says of one column chunk.
pub struct ColumnChunkMeta {
    pub dictionary_page_offset: Option<i64>,
    pub data_page_offset: i64,
    pub compressed_size: i64,
    pub max_rep_level: i16,
    /// The offset index of the chunk, where the file has one.
    pub page_locations: Option<Vec<PageLocation>>,
}

/// What the footer of a file says of one row group.
pub struct RowGroupMeta {
    pub num_rows: i64,
    pub columns: Vec<ColumnChunkMeta>,
}

/// Why the footer of a file cannot be used.
#[derive(Clone, Copy, Debug, PartialEq, Eq, Structural)]
pub enum RangeError {
    InvalidPageLocations,
    InvalidColumnRange,
    ColumnExceedsFile,
    RowGroupOutOfBounds { index: usize, count: usize },
    RowCountOverflow,
}

impl RangeError {
    /// The text of the error.
    pub fn message(&self) -> (s: String)
        ensures
            match *self {
                RangeError::InvalidPageLocations => s@
                    == "Invalid Parquet offset index page locations"@,
                RangeError::InvalidColumnRange => s@ == "Invalid Parquet column byte range"@,
                RangeError::ColumnExceedsFile => s@
                    == "Parquet column byte range exceeds file length"@,
                RangeError::RowGroupOutOfBounds { index, count } => s@ == "Row group index "@
                    + crate::text::decimal(index as nat) + " out of bounds for file with "@
                    + crate::text::decimal(count as nat) + " row groups"@,
                RangeError::RowCountOverflow => s@
                    == "Row count overflow: out of range integral type conversion attempted"@,
            },
    {
        match *self {
            RangeError::InvalidPageLocations => owned("Invalid Parquet offset index page locations"),
            RangeError::InvalidColumnRange => owned("Invalid Parquet column byte range"),
            RangeError::ColumnExceedsFile => owned("Parquet column byte range exceeds file length"),
            RangeError::RowGroupOutOfBounds { index, count } => {
                let mut s: String = owned("Row group index ");
                push_decimal(&mut s, index as u64);
                s.append(" out of bounds for file with ");
                push_decimal(&mut s, count as u64);
                s.append(" row groups");
                s
            },
            RangeError::RowCountOverflow => owned(
                "Row count overflow: out of range integral type conversion attempted",
            ),
        }
    }
}

impl PageLocation {
    /// Where the page ends.
    pub open spec fn end(self) -> int {
        self.offset + self.compressed_page_size
    }

    /// The bytes of the page.
    pub open spec fn extent(self) -> Range<u64> {
        Range { start: self.offset as u64, end: self.end() as u64 }
    }
}

/// Whether the pages of a chunk that begins at `chunk.start` and ends at `chunk.end` can be
/// trusted: the first page is the chunk's first data page and begins with row 0; every page
/// has bytes, lies in the chunk and begins at one of its `rows` rows; bytes and rows ascend.
pub open spec fn page_locations_valid(
    pages: Seq<PageLocation>,
    chunk: Range<u64>,
    data_offset: i64,
    rows: usize,
) -> bool {
    &&& pages.len() > 0
    &&& pages[0].first_row_index == 0
    &&& pages[0].offset == data_offset
    &&& chunk.start <= pages[0].offset
    &&& forall|i: int|
        0 <= i < pages.len() ==> {
            &&& 0 <= (#[trigger] pages[i]).offset
            &&& 0 < pages[i].compressed_page_size
            &&& pages[i].end() <= chunk.end
            &&& 0 <= pages[i].first_row_index < rows
        }
    &&& forall|i: int, j: int|
        #![trigger pages[i], pages[j]]
        0 <= i < j < pages.len() ==> pages[i].end() <= pages[j].offset
            && pages[i].first_row_index < pages[j].first_row_index
}

/// Whether the offset index of a column chunk can be trusted.
pub fn validate_page_locations(
    pages: &[PageLocation],
    chunk: Range<u64>,
    data_offset: i64,
    rows: usize,
) -> (r: Result<(), RangeError>)
    ensures
        r is Ok <==> page_locations_valid(pages@, chunk, data_offset, rows),
        r matches Err(e) ==> e == RangeError::InvalidPageLocations,
{
    if pages.len() == 0 || pages[0].first_row_index != 0 || pages[0].offset != data_offset {
        return Err(RangeError::InvalidPageLocations);
    }
    let mut previous_end: u64 = chunk.start;
    let mut previous_row: Option<usize> = None;
    let mut i: usize = 0;
    while i < pages.len()
        invariant
            i <= pages@.len(),
            pages@.len() > 0,
            pages@[0].first_row_index == 0,
            pages@[0].offset == data_offset,
            i == 0 ==> previous_end == chunk.start && previous_row is None,
            i > 0 ==> chunk.start <= pages@[0].offset && previous_end == pages@[i - 1].end()
                && previous_row == Some(pages@[i - 1].first_row_index as usize),
            forall|k: int|
                0 <= k < i ==> {
                    &&& 0 <= (#[trigger] pages@[k]).offset
                    &&& 0 < pages@[k].compressed_page_size
                    &&& pages@[k].end() <= chunk.end
                    &&& 0 <= pages@[k].first_row_index < rows
                },
            forall|a: int, b: int|
                #![trigger pages@[a], pages@[b]]
                0 <= a < b < i ==> pages@[a].end() <= pages@[b].offset
                    && pages@[a].first_row_index < pages@[b].first_row_index,
        decreases pages@.len() - i,
    {
        let page: PageLocation = pages[i];
        assert(page == pages@[i as int]);
        if page.offset < 0 || page.compressed_page_size < 0 || page.first_row_index < 0 {
            return Err(RangeError::InvalidPageLocations);
        }
        let start: u64 = page.offset as u64;
        let size: u64 = page.compressed_page_size as u64;
        if page.first_row_index as u64 >= rows as u64 {
            return Err(RangeError::InvalidPageLocations);
        }
        let row: usize = page.first_row_index as usize;
        let end: u64 = start + size;
        let ascends: bool = match previous_row {
            Some(previous) => row > previous,
            None => true,
        };
        if size == 0 || start < previous_end || end > chunk.end || !ascends {
            proof {
                if i > 0 {
                    assert(pages@[i - 1].end() <= pages@[i as int].offset
                        && pages@[i - 1].first_row_index < pages@[i as int].first_row_index
                        || !page_locations_valid(pages@, chunk, data_offset, rows));
                }
            }
            return Err(RangeError::InvalidPageLocations);
        }
        proof {
            assert forall|a: int, b: int|
                #![trigger pages@[a], pages@[b]]
                0 <= a < b < i + 1 implies pages@[a].end() <= pages@[b].offset
                && pages@[a].first_row_index < pages@[b].first_row_index by {
                if b == i {
                    if a < i - 1 {
                        assert(pages@[a].end() <= pages@[i - 1].offset);
                        assert(pages@[a].first_row_index < pages@[i - 1].first_row_index);
                    }
                }
            }
        }
        previous_end = end;
        previous_row = Some(row);
        i = i + 1;
    }
    Ok(())
}

/// One more range added to merged ranges: it joins the last of them if it begins at most the
/// coalescing gap behind its end.
pub open spec fn merge_one(merged: Seq<Range<u64>>, range: Range<u64>) -> Seq<Range<u64>> {
    if merged.len() > 0 && range.start <= merged.last().end + PAGE_COALESCE_GAP {
        merged.drop_last().push(
            Range {
                start: merged.last().start,
                end: if merged.last().end >= range.end { merged.last().end } else { range.end },
            },
        )
    } else {
        merged.push(range)
    }
}

/// The ranges, in their order, with those that are close to each other merged.
pub open spec fn merged(ranges: Seq<Range<u64>>) -> Seq<Range<u64>>
    decreases ranges.len(),
{
    if ranges.len() == 0 {
        Seq::empty()
    } else {
        merge_one(merged(ranges.drop_last()), ranges.last())
    }
}

/// Merges ranges that are close to each other.
pub fn merge_page_ranges(ranges: Vec<Range<u64>>) -> (out: Vec<Range<u64>>)
    ensures
        out@ == merged(ranges@),
{
    let mut out: Vec<Range<u64>> = Vec::new();
    let mut i: usize = 0;
    assert(ranges@.take(0) =~= Seq::<Range<u64>>::empty());
    while i < ranges.len()
        invariant
            i <= ranges@.len(),
            out@ == merged(ranges@.take(i as int)),
        decreases ranges@.len() - i,
    {
        let start: u64 = ranges[i].start;
        let end: u64 = ranges[i].end;
        proof {
            assert(ranges@.take(i + 1).drop_last() =~= ranges@.take(i as int));
            assert(ranges@.take(i + 1).last() == ranges@[i as int]);
        }
        let ghost before = out@;
        let n: usize = out.len();
        let joins: bool = if n > 0 {
            start <= out[n - 1].end.saturating_add(PAGE_COALESCE_GAP)
        } else {
            false
        };
        if joins {
            let last_start: u64 = out[n - 1].start;
            let last_end: u64 = out[n - 1].end;
            let new_end: u64 = if last_end >= end { last_end } else { end };
            out.pop();
            out.push(Range { start: last_start, end: new_end });
            assert(out@ =~= merge_one(before, ranges@[i as int]));
        } else {
            out.push(Range { start, end });
            assert(out@ =~= merge_one(before, ranges@[i as int]));
        }
        i = i + 1;
    }
    assert(ranges@.take(ranges@.len() as int) =~= ranges@);
    out
}

/// Whether every byte of `inner` is in `outer`.
pub open spec fn covers(outer: Range<u64>, inner: Range<u64>) -> bool {
    outer.start <= inner.start && inner.end <= outer.end
}

/// Whether ranges ascend: none is empty the wrong way round, and each begins at or behind the
/// end of those before it.
pub open spec fn ascending(ranges: Seq<Range<u64>>) -> bool {
    &&& forall|i: int| 0 <= i < ranges.len() ==> (#[trigger] ranges[i]).start <= ranges[i].end
    &&& forall|i: int, j: int|
        #![trigger ranges[i], ranges[j]]
        0 <= i < j < ranges.len() ==> ranges[i].end <= ranges[j].start
}

/// Whether ranges are ordered by where they begin.
pub open spec fn starts_ascend(ranges: Seq<Range<u64>>) -> bool {
    forall|i: int, j: int|
        #![trigger ranges[i], ranges[j]]
        0 <= i < j < ranges.len() ==> ranges[i].start <= ranges[j].start
}

/// Merging loses no byte of ranges that are ordered by where they begin: every range lies within
/// a merged one.
pub proof fn merging_loses_nothing(ranges: Seq<Range<u64>>, i: int)
    requires
        starts_ascend(ranges),
        0 <= i < ranges.len(),
    ensures
        exists|k: int| 0 <= k < merged(ranges).len() && covers(#[trigger] merged(ranges)[k], ranges[i]),
    decreases ranges.len(),
{
    let before = ranges.drop_last();
    let m = merged(before);
    let r = merged(ranges);
    let last = ranges.last();
    assert(last == ranges[ranges.len() - 1]);
    assert forall|a: int, b: int|
        #![trigger before[a], before[b]]
        0 <= a < b < before.len() implies before[a].start <= before[b].start by {
        assert(ranges[a].start <= ranges[b].start);
    }
    if i == ranges.len() - 1 {
        assert forall|a: int| 0 <= a < before.len() implies (#[trigger] before[a]).start
            <= last.start by {
            assert(ranges[a].start <= ranges[ranges.len() - 1].start);
        }
        lemma_merged_starts(before, last.start as int);
        if m.len() > 0 {
            assert(m[m.len() - 1] == m.last());
        }
        assert(covers(r[r.len() - 1], ranges[i]));
    } else {
        assert(before[i] == ranges[i]);
        merging_loses_nothing(before, i);
        let k = choose|k: int| 0 <= k < m.len() && covers(#[trigger] m[k], before[i]);
        if k < m.len() - 1 {
            assert(r[k] == m[k]);
        }
        assert(covers(r[k], ranges[i]));
    }
}

/// Merged ranges begin where ranges do.
proof fn lemma_merged_starts(ranges: Seq<Range<u64>>, high: int)
    requires
        forall|i: int| 0 <= i < ranges.len() ==> (#[trigger] ranges[i]).start <= high,
    ensures
        forall|k: int|
            0 <= k < merged(ranges).len() ==> (#[trigger] merged(ranges)[k]).start <= high,
    decreases ranges.len(),
{
    if ranges.len() > 0 {
        let before = ranges.drop_last();
        assert forall|i: int| 0 <= i < before.len() implies (#[trigger] before[i]).start <= high by {
            assert(before[i] == ranges[i]);
        }
        lemma_merged_starts(before, high);
        assert(ranges[ranges.len() - 1] == ranges.last());
        let m = merged(before);
        let r = merged(ranges);
        assert forall|k: int| 0 <= k < r.len() implies (#[trigger] r[k]).start <= high by {
            if k < m.len() - 1 {
                assert(r[k] == m[k]);
            }
            if m.len() > 0 {
                assert(m[m.len() - 1] == m.last());
            }
        }
    }
}

/// Merged ranges lie where the ranges do.
proof fn lemma_merged_within(ranges: Seq<Range<u64>>, low: int, high: int)
    requires
        forall|i: int|
            0 <= i < ranges.len() ==> low <= (#[trigger] ranges[i]).start && ranges[i].end <= high,
    ensures
        forall|k: int|
            0 <= k < merged(ranges).len() ==> low <= (#[trigger] merged(ranges)[k]).start
                && merged(ranges)[k].end <= high,
    decreases ranges.len(),
{
    if ranges.len() > 0 {
        let before = ranges.drop_last();
        assert forall|i: int| 0 <= i < before.len() implies low <= (#[trigger] before[i]).start
            && before[i].end <= high by {
            assert(before[i] == ranges[i]);
        }
        lemma_merged_within(before, low, high);
        assert(ranges[ranges.len() - 1] == ranges.last());
        let m = merged(before);
        let r = merged(ranges);
        assert forall|k: int| 0 <= k < r.len() implies low <= (#[trigger] r[k]).start && r[k].end
            <= high by {
            if k < m.len() - 1 {
                assert(r[k] == m[k]);
            }
            if m.len() > 0 {
                assert(m[m.len() - 1] == m.last());
            }
        }
    }
}

/// Merged ranges ascend, and there is more than the coalescing gap between any two of them,
/// whatever the order of the ranges is and whether they overlap or not.
pub proof fn merged_is_ascending(ranges: Seq<Range<u64>>)
    requires
        forall|i: int| 0 <= i < ranges.len() ==> (#[trigger] ranges[i]).start <= ranges[i].end,
    ensures
        ascending(merged(ranges)),
        forall|i: int, j: int|
            #![trigger merged(ranges)[i], merged(ranges)[j]]
            0 <= i < j < merged(ranges).len() ==> merged(ranges)[i].end + PAGE_COALESCE_GAP
                < merged(ranges)[j].start,
    decreases ranges.len(),
{
    if ranges.len() > 0 {
        let before = ranges.drop_last();
        assert(ranges[ranges.len() - 1] == ranges.last());
        assert forall|i: int| 0 <= i < before.len() implies (#[trigger] before[i]).start
            <= before[i].end by {
            assert(before[i] == ranges[i]);
        }
        merged_is_ascending(before);
        let m = merged(before);
        let r = merged(ranges);
        assert forall|k: int| 0 <= k < r.len() implies (#[trigger] r[k]).start <= r[k].end by {
            if k < m.len() - 1 {
                assert(r[k] == m[k]);
            }
            if m.len() > 0 {
                assert(m[m.len() - 1] == m.last());
            }
        }
        assert forall|i: int, j: int|
            #![trigger r[i], r[j]]
            0 <= i < j < r.len() implies r[i].end + PAGE_COALESCE_GAP < r[j].start by {
            assert(r[i] == m[i]);
            if m.len() > 0 {
                assert(m[m.len() - 1] == m.last());
            }
            if j < m.len() - 1 {
                assert(r[j] == m[j]);
            } else if j < m.len() {
                assert(m[i].end + PAGE_COALESCE_GAP < m[j].start);
            } else {
                if i < m.len() - 1 {
                    assert(m[i].end + PAGE_COALESCE_GAP < m[m.len() - 1].start);
                }
            }
        }
    }
}

/// The rows before selector `n`.
pub open spec fn rows_before(selectors: Seq<RowSelector>, n: int) -> nat
    decreases n,
{
    if n <= 0 {
        0
    } else {
        rows_before(selectors, n - 1) + selectors[n - 1].row_count as nat
    }
}

/// The selected rows of the first `n` selectors.
pub open spec fn selected_before(selectors: Seq<RowSelector>, n: int) -> nat
    decreases n,
{
    if n <= 0 {
        0
    } else {
        selected_before(selectors, n - 1) + if selectors[n - 1].skip {
            0nat
        } else {
            selectors[n - 1].row_count as nat
        }
    }
}

/// Whether `row` is selected.
pub open spec fn row_selected(selectors: Seq<RowSelector>, row: int) -> bool {
    exists|k: int|
        0 <= k < selectors.len() && !(#[trigger] selectors[k]).skip && rows_before(selectors, k)
            <= row < rows_before(selectors, k) + selectors[k].row_count
}

proof fn lemma_rows_monotone(selectors: Seq<RowSelector>, a: int, b: int)
    requires
        0 <= a <= b <= selectors.len(),
    ensures
        rows_before(selectors, a) <= rows_before(selectors, b),
        selected_before(selectors, b) <= rows_before(selectors, b),
    decreases b,
{
    if a < b {
        lemma_rows_monotone(selectors, a, b - 1);
    } else if b > 0 {
        lemma_rows_monotone(selectors, b - 1, b - 1);
    }
}

/// The number of selected rows.
pub fn row_count(selectors: &[RowSelector]) -> (n: usize)
    requires
        rows_before(selectors@, selectors@.len() as int) <= usize::MAX,
    ensures
        n == selected_before(selectors@, selectors@.len() as int),
{
    let mut n: usize = 0;
    let mut i: usize = 0;
    while i < selectors.len()
        invariant
            i <= selectors@.len(),
            n == selected_before(selectors@, i as int),
            rows_before(selectors@, selectors@.len() as int) <= usize::MAX,
        decreases selectors@.len() - i,
    {
        proof {
            lemma_rows_monotone(selectors@, i + 1, selectors@.len() as int);
            lemma_rows_monotone(selectors@, i + 1, i + 1);
        }
        if !selectors[i].skip {
            n = n + selectors[i].row_count;
        }
        i = i + 1;
    }
    n
}

/// Whether page `j` holds a selected row. The last page holds all rows from its first one on.
pub open spec fn page_selected(selectors: Seq<RowSelector>, pages: Seq<PageLocation>, j: int) -> bool {
    exists|row: int| #[trigger]
        row_selected(selectors, row) && pages[j].first_row_index <= row && (j + 1 < pages.len()
            ==> row < pages[j + 1].first_row_index)
}

/// The extents of those of the first `n` pages that hold a selected row, in order.
pub open spec fn selected_extents(
    selectors: Seq<RowSelector>,
    pages: Seq<PageLocation>,
    n: int,
) -> Seq<Range<u64>>
    decreases n,
{
    if n <= 0 {
        Seq::empty()
    } else if page_selected(selectors, pages, n - 1) {
        selected_extents(selectors, pages, n - 1).push(pages[n - 1].extent())
    } else {
        selected_extents(selectors, pages, n - 1)
    }
}

/// Calls `parquet::arrow::arrow_reader::RowSelection::scan_ranges` on a selection that is
/// made of `selectors`.
///
/// Claimed of the crate, for pages whose rows ascend from row 0: it returns the byte ranges
/// of exactly those pages that hold a selected row, in the order of the pages.
#[verifier::external_body]
fn scan_ranges(selectors: &[RowSelector], pages: &[PageLocation]) -> (r: Vec<Range<u64>>)
    requires
        rows_before(selectors@, selectors@.len() as int) <= usize::MAX,
        exists|chunk: Range<u64>, data_offset: i64, rows: usize| #[trigger]
            page_locations_valid(pages@, chunk, data_offset, rows),
    ensures
        r@ == selected_extents(selectors@, pages@, pages@.len() as int),
{
    let selection: parquet::arrow::arrow_reader::RowSelection = selectors
        .iter()
        .map(|s| parquet::arrow::arrow_reader::RowSelector { row_count: s.row_count, skip: s.skip })
        .collect();
    let locations: Vec<parquet::file::page_index::offset_index::PageLocation> = pages
        .iter()
        .map(|p| parquet::file::page_index::offset_index::PageLocation {
            offset: p.offset,
            compressed_page_size: p.compressed_page_size,
            first_row_index: p.first_row_index,
        })
        .collect();
    selection.scan_ranges(&locations)
}

impl ColumnChunkMeta {
    /// Where the chunk begins: at its dictionary page, or else at its first data page.
    pub open spec fn first_offset(&self) -> i64 {
        match self.dictionary_page_offset {
            Some(offset) => offset,
            None => self.data_page_offset,
        }
    }

    /// Whether the footer gives the chunk a place in a file at all.
    pub open spec fn range_valid(&self) -> bool {
        self.first_offset() >= 0 && self.compressed_size >= 0
    }

    /// Where the chunk begins and how many bytes it has.
    pub fn byte_range(&self) -> (r: (u64, u64))
        requires
            self.range_valid(),
        ensures
            r.0 == self.first_offset(),
            r.1 == self.compressed_size,
    {
        let start: i64 = match self.dictionary_page_offset {
            Some(offset) => offset,
            None => self.data_page_offset,
        };
        (start as u64, self.compressed_size as u64)
    }

    /// The whole chunk.
    pub open spec fn whole(&self, leaf: usize) -> LeafRange {
        LeafRange { leaf, start: self.first_offset() as u64, len: self.compressed_size as u64 }
    }

    /// The bytes of the chunk.
    pub open spec fn extent(&self) -> Range<u64> {
        Range {
            start: self.first_offset() as u64,
            end: (self.first_offset() + self.compressed_size) as u64,
        }
    }

    /// The ranges that a selection needs: what stands before the first data page, which holds
    /// the dictionary, and the pages that hold a selected row.
    pub open spec fn wanted(&self, selectors: Seq<RowSelector>) -> Seq<Range<u64>> {
        let pages = self.page_locations->0@;
        let extents = selected_extents(selectors, pages, pages.len() as int);
        if self.first_offset() < pages[0].offset {
            seq![Range { start: self.first_offset() as u64, end: pages[0].offset as u64 }]
                + extents
        } else {
            extents
        }
    }
}

/// The bytes in ranges.
pub open spec fn total_len(ranges: Seq<Range<u64>>) -> int
    decreases ranges.len(),
{
    if ranges.len() == 0 {
        0
    } else {
        total_len(ranges.drop_last()) + (ranges.last().end - ranges.last().start)
    }
}

/// Ranges as pieces of a leaf column.
pub open spec fn as_leaf_ranges(leaf: usize, ranges: Seq<Range<u64>>) -> Seq<LeafRange> {
    ranges.map_values(
        |r: Range<u64>| LeafRange { leaf, start: r.start, len: (r.end - r.start) as u64 },
    )
}

/// Whether merged ranges are too many, or save less than a fifth of the chunk's bytes.
pub open spec fn not_worthwhile(ranges: Seq<Range<u64>>, chunk_len: int) -> bool {
    ranges.len() > MAX_PAGE_RANGES || total_len(ranges) * 5 >= chunk_len * 4
}

/// The pieces of one column chunk that have to be fetched.
///
/// Rows of repeated columns can span pages, so those are fetched as a whole.
pub open spec fn leaf_plan(
    column: ColumnChunkMeta,
    leaf: usize,
    rows: usize,
    selection: Option<Seq<RowSelector>>,
    file_len: u64,
) -> Result<Seq<LeafRange>, RangeError> {
    if !column.range_valid() {
        Err(RangeError::InvalidColumnRange)
    } else if column.first_offset() + column.compressed_size > file_len {
        Err(RangeError::ColumnExceedsFile)
    } else if selection is None || column.page_locations is None || column.max_rep_level != 0 {
        Ok(seq![column.whole(leaf)])
    } else if !page_locations_valid(
        column.page_locations->0@,
        column.extent(),
        column.data_page_offset,
        rows,
    ) {
        Err(RangeError::InvalidPageLocations)
    } else {
        let ranges = merged(column.wanted(selection->0));
        if not_worthwhile(ranges, column.compressed_size as int) {
            Ok(seq![column.whole(leaf)])
        } else {
            Ok(as_leaf_ranges(leaf, ranges))
        }
    }
}

/// The pieces of several column chunks, in the order of the leaves; the first error wins.
pub open spec fn leaves_plan(
    columns: Seq<ColumnChunkMeta>,
    leaves: Seq<usize>,
    rows: usize,
    selection: Option<Seq<RowSelector>>,
    file_len: u64,
) -> Result<Seq<LeafRange>, RangeError>
    decreases leaves.len(),
{
    if leaves.len() == 0 {
        Ok(Seq::empty())
    } else {
        match leaves_plan(columns, leaves.drop_last(), rows, selection, file_len) {
            Err(e) => Err(e),
            Ok(before) => match leaf_plan(
                columns[leaves.last() as int],
                leaves.last(),
                rows,
                selection,
                file_len,
            ) {
                Err(e) => Err(e),
                Ok(more) => Ok(before + more),
            },
        }
    }
}

/// What a selection of rows needs of a row group.
///
/// Nothing, if it selects no row; the whole chunks, if it selects every row.
pub open spec fn selection_plan(
    row_groups: Seq<RowGroupMeta>,
    rg_idx: usize,
    leaves: Seq<usize>,
    selection: Option<Seq<RowSelector>>,
    file_len: u64,
) -> Result<Seq<LeafRange>, RangeError> {
    if rg_idx >= row_groups.len() {
        Err(RangeError::RowGroupOutOfBounds { index: rg_idx, count: row_groups.len() as usize })
    } else if row_groups[rg_idx as int].num_rows < 0 || row_groups[rg_idx as int].num_rows
        > usize::MAX {
        Err(RangeError::RowCountOverflow)
    } else {
        let rows = row_groups[rg_idx as int].num_rows as usize;
        let selected = match selection {
            Some(s) => selected_before(s, s.len() as int),
            None => rows as nat,
        };
        if selected == 0 {
            Ok(Seq::empty())
        } else {
            leaves_plan(
                row_groups[rg_idx as int].columns@,
                leaves,
                rows,
                if selected < rows { selection } else { None },
                file_len,
            )
        }
    }
}

/// Whether the leaf at `i` exists, if it is looked at: it is not behind a leaf that cannot be
/// planned.
pub open spec fn reached_leaf_exists(
    columns: Seq<ColumnChunkMeta>,
    leaves: Seq<usize>,
    rows: usize,
    selection: Option<Seq<RowSelector>>,
    file_len: u64,
    i: int,
) -> bool {
    leaves_plan(columns, leaves.take(i), rows, selection, file_len) is Ok ==> leaves[i]
        < columns.len()
}

/// Whether every leaf exists that is looked at.
pub open spec fn reached_leaves_exist(
    columns: Seq<ColumnChunkMeta>,
    leaves: Seq<usize>,
    rows: usize,
    selection: Option<Seq<RowSelector>>,
    file_len: u64,
) -> bool {
    forall|i: int|
        0 <= i < leaves.len() ==> #[trigger] reached_leaf_exists(
            columns,
            leaves,
            rows,
            selection,
            file_len,
            i,
        )
}

/// Whether every leaf exists that is looked at. None is where no row is selected.
pub open spec fn leaves_exist(
    row_groups: Seq<RowGroupMeta>,
    rg_idx: usize,
    leaves: Seq<usize>,
    selection: Option<Seq<RowSelector>>,
    file_len: u64,
) -> bool {
    let rg = row_groups[rg_idx as int];
    let rows = rg.num_rows as usize;
    let selected = match selection {
        Some(s) => selected_before(s, s.len() as int),
        None => rows as nat,
    };
    rg_idx < row_groups.len() && 0 <= rg.num_rows <= usize::MAX && selected > 0
        ==> reached_leaves_exist(
        rg.columns@,
        leaves,
        rows,
        if selected < rows {
            selection
        } else {
            None
        },
        file_len,
    )
}

/// Whether a computed plan is the one that is asked for.
pub open spec fn same_plan(
    r: Result<Vec<LeafRange>, RangeError>,
    plan: Result<Seq<LeafRange>, RangeError>,
) -> bool {
    match r {
        Ok(v) => plan == Ok::<Seq<LeafRange>, RangeError>(v@),
        Err(e) => plan == Err::<Seq<LeafRange>, RangeError>(e),
    }
}

proof fn lemma_selected_extents(
    selectors: Seq<RowSelector>,
    pages: Seq<PageLocation>,
    chunk: Range<u64>,
    data_offset: i64,
    rows: usize,
    n: int,
)
    requires
        page_locations_valid(pages, chunk, data_offset, rows),
        0 <= n <= pages.len(),
    ensures
        ascending(selected_extents(selectors, pages, n)),
        forall|i: int|
            0 <= i < selected_extents(selectors, pages, n).len() ==> {
                &&& pages[0].offset <= (#[trigger] selected_extents(selectors, pages, n)[i]).start
                &&& n > 0
                &&& selected_extents(selectors, pages, n)[i].end <= pages[n - 1].end()
            },
        selected_extents(selectors, pages, n).len() <= n,
        forall|j: int|
            #![trigger pages[j]]
            0 <= j < n && page_selected(selectors, pages, j) ==> selected_extents(
                selectors,
                pages,
                n,
            ).contains(pages[j].extent()),
    decreases n,
{
    if n > 0 {
        lemma_selected_extents(selectors, pages, chunk, data_offset, rows, n - 1);
        let before = selected_extents(selectors, pages, n - 1);
        let now = selected_extents(selectors, pages, n);
        assert(pages[n - 1].offset >= 0);
        if n > 1 {
            assert(pages[n - 2].end() <= pages[n - 1].offset);
            assert(pages[0].offset <= pages[n - 1].offset);
        }
        assert forall|i: int| 0 <= i < now.len() implies {
            &&& pages[0].offset <= (#[trigger] now[i]).start
            &&& now[i].end <= pages[n - 1].end()
        } by {
            if i < before.len() {
                assert(now[i] == before[i]);
            }
        }
        assert(ascending(now)) by {
            assert forall|i: int| 0 <= i < now.len() implies (#[trigger] now[i]).start
                <= now[i].end by {
                if i < before.len() {
                    assert(now[i] == before[i]);
                }
            }
            assert forall|i: int, j: int|
                #![trigger now[i], now[j]]
                0 <= i < j < now.len() implies now[i].end <= now[j].start by {
                assert(now[i] == before[i]);
                if j < before.len() {
                    assert(now[j] == before[j]);
                }
            }
        }
        assert forall|j: int|
            #![trigger pages[j]]
            0 <= j < n && page_selected(selectors, pages, j) implies now.contains(
            pages[j].extent(),
        ) by {
            if j < n - 1 {
                let k = choose|k: int| 0 <= k < before.len() && before[k] == pages[j].extent();
                assert(now[k] == pages[j].extent());
            } else {
                assert(now[now.len() - 1] == pages[j].extent());
            }
        }
    }
}

/// What a selection needs of a chunk ascends and lies within the chunk.
proof fn lemma_wanted(
    column: ColumnChunkMeta,
    rows: usize,
    selectors: Seq<RowSelector>,
)
    requires
        column.range_valid(),
        column.first_offset() + column.compressed_size <= u64::MAX,
        column.page_locations is Some,
        page_locations_valid(
            column.page_locations->0@,
            column.extent(),
            column.data_page_offset,
            rows,
        ),
    ensures
        ascending(column.wanted(selectors)),
        forall|i: int|
            0 <= i < column.wanted(selectors).len() ==> column.first_offset()
                <= (#[trigger] column.wanted(selectors)[i]).start && column.wanted(selectors)[i].end
                <= column.first_offset() + column.compressed_size,
{
    let pages = column.page_locations->0@;
    let n = pages.len() as int;
    lemma_selected_extents(
        selectors,
        pages,
        column.extent(),
        column.data_page_offset,
        rows,
        n,
    );
    let extents = selected_extents(selectors, pages, n);
    let wanted = column.wanted(selectors);
    assert(pages[n - 1].end() <= column.extent().end);
    if column.first_offset() < pages[0].offset {
        assert forall|i: int| 0 <= i < wanted.len() implies (#[trigger] wanted[i]).start
            <= wanted[i].end by {
            if i > 0 {
                assert(wanted[i] == extents[i - 1]);
            }
        }
        assert forall|i: int, j: int|
            #![trigger wanted[i], wanted[j]]
            0 <= i < j < wanted.len() implies wanted[i].end <= wanted[j].start by {
            assert(wanted[j] == extents[j - 1]);
            if i > 0 {
                assert(wanted[i] == extents[i - 1]);
            }
        }
        assert forall|i: int| 0 <= i < wanted.len() implies column.first_offset()
            <= (#[trigger] wanted[i]).start && wanted[i].end <= column.first_offset()
            + column.compressed_size by {
            if i > 0 {
                assert(wanted[i] == extents[i - 1]);
            } else {
                assert(pages[0].end() <= column.extent().end);
            }
        }
    }
}

/// The pieces of one column chunk that have to be fetched.
fn plan_leaf(
    column: &ColumnChunkMeta,
    leaf: usize,
    rows: usize,
    selection: Option<&[RowSelector]>,
    file_len: u64,
) -> (r: Result<Vec<LeafRange>, RangeError>)
    requires
        selection matches Some(s) ==> rows_before(s@, s@.len() as int) <= usize::MAX,
    ensures
        same_plan(
            r,
            leaf_plan(
                *column,
                leaf,
                rows,
                match selection {
                    Some(s) => Some(s@),
                    None => None,
                },
                file_len,
            ),
        ),
{
    let first: i64 = match column.dictionary_page_offset {
        Some(offset) => offset,
        None => column.data_page_offset,
    };
    if first < 0 || column.compressed_size < 0 {
        return Err(RangeError::InvalidColumnRange);
    }
    let (start, len): (u64, u64) = column.byte_range();
    let end: u64 = start + len;
    if end > file_len {
        return Err(RangeError::ColumnExceedsFile);
    }
    let whole = LeafRange { leaf, start, len };
    let mut out: Vec<LeafRange> = Vec::new();
    let (selectors, pages): (&[RowSelector], &Vec<PageLocation>) = match (
        selection,
        &column.page_locations,
    ) {
        (Some(selectors), Some(pages)) => (selectors, pages),
        _ => {
            out.push(whole);
            assert(out@ =~= seq![column.whole(leaf)]);
            return Ok(out);
        },
    };
    if column.max_rep_level != 0 {
        out.push(whole);
        assert(out@ =~= seq![column.whole(leaf)]);
        return Ok(out);
    }
    match validate_page_locations(
        pages.as_slice(),
        Range { start, end },
        column.data_page_offset,
        rows,
    ) {
        Ok(_) => {},
        Err(e) => {
            return Err(e);
        },
    }
    proof {
        lemma_wanted(*column, rows, selectors@);
        merged_is_ascending(column.wanted(selectors@));
        lemma_merged_within(column.wanted(selectors@), start as int, end as int);
        assert(page_locations_valid(pages@, column.extent(), column.data_page_offset, rows));
        assert(pages@[0].offset >= 0);
    }
    let first_data: u64 = pages[0].offset as u64;
    let mut wanted: Vec<Range<u64>> = Vec::new();
    if start < first_data {
        wanted.push(Range { start, end: first_data });
    }
    let mut selected: Vec<Range<u64>> = scan_ranges(selectors, pages.as_slice());
    wanted.append(&mut selected);
    assert(wanted@ =~= column.wanted(selectors@));
    let ranges: Vec<Range<u64>> = merge_page_ranges(wanted);
    let mut bytes: u128 = 0;
    let mut i: usize = 0;
    assert(ranges@.take(0) =~= Seq::<Range<u64>>::empty());
    while i < ranges.len()
        invariant
            i <= ranges@.len(),
            forall|k: int| 0 <= k < ranges@.len() ==> (#[trigger] ranges@[k]).start <= ranges@[k].end,
            bytes == total_len(ranges@.take(i as int)),
            bytes <= i * 0xffff_ffff_ffff_ffff,
        decreases ranges@.len() - i,
    {
        proof {
            assert(ranges@.take(i + 1).drop_last() =~= ranges@.take(i as int));
            assert(ranges@.take(i + 1).last() == ranges@[i as int]);
            assert(i * 0xffff_ffff_ffff_ffff + 0xffff_ffff_ffff_ffff <= u128::MAX)
                by (nonlinear_arith)
                requires
                    i <= 0xffff_ffff_ffff_ffff,
            ;
            assert((i + 1) * 0xffff_ffff_ffff_ffff == i * 0xffff_ffff_ffff_ffff
                + 0xffff_ffff_ffff_ffff) by (nonlinear_arith);
        }
        bytes = bytes + (ranges[i].end - ranges[i].start) as u128;
        i = i + 1;
    }
    assert(ranges@.take(ranges@.len() as int) =~= ranges@);
    let sparse: bool = if ranges.len() > MAX_PAGE_RANGES {
        false
    } else {
        proof {
            assert(bytes <= 32 * 0xffff_ffff_ffff_ffff) by (nonlinear_arith)
                requires
                    bytes <= i * 0xffff_ffff_ffff_ffff,
                    i <= 32,
            ;
        }
        bytes * 5 < len as u128 * 4
    };
    if !sparse {
        out.push(whole);
        assert(out@ =~= seq![column.whole(leaf)]);
        return Ok(out);
    }
    let mut k: usize = 0;
    while k < ranges.len()
        invariant
            k <= ranges@.len(),
            forall|i: int| 0 <= i < ranges@.len() ==> (#[trigger] ranges@[i]).start <= ranges@[i].end,
            out@.len() == k,
            forall|i: int| 0 <= i < k ==> #[trigger] out@[i] == as_leaf_ranges(leaf, ranges@)[i],
        decreases ranges@.len() - k,
    {
        out.push(
            LeafRange { leaf, start: ranges[k].start, len: ranges[k].end - ranges[k].start },
        );
        k = k + 1;
    }
    assert(out@ =~= as_leaf_ranges(leaf, ranges@));
    Ok(out)
}

/// The pieces of all leaves, up to the first that cannot be planned.
fn plan_leaves(
    columns: &Vec<ColumnChunkMeta>,
    leaves: &[usize],
    rows: usize,
    narrowed: Option<&[RowSelector]>,
    file_len: u64,
) -> (r: Result<Vec<LeafRange>, RangeError>)
    requires
        narrowed matches Some(s) ==> rows_before(s@, s@.len() as int) <= usize::MAX,
        reached_leaves_exist(
            columns@,
            leaves@,
            rows,
            match narrowed {
                Some(s) => Some(s@),
                None => None,
            },
            file_len,
        ),
    ensures
        same_plan(
            r,
            leaves_plan(
                columns@,
                leaves@,
                rows,
                match narrowed {
                    Some(s) => Some(s@),
                    None => None,
                },
                file_len,
            ),
        ),
{
    let ghost narrowed_view: Option<Seq<RowSelector>> = match narrowed {
        Some(s) => Some(s@),
        None => None,
    };
    let mut out: Vec<LeafRange> = Vec::new();
    let mut i: usize = 0;
    assert(leaves@.take(0) =~= Seq::<usize>::empty());
    while i < leaves.len()
        invariant
            i <= leaves@.len(),
            reached_leaves_exist(columns@, leaves@, rows, narrowed_view, file_len),
            narrowed matches Some(s) ==> rows_before(s@, s@.len() as int) <= usize::MAX,
            narrowed_view == (match narrowed {
                Some(s) => Some(s@),
                None => None,
            }),
            leaves_plan(columns@, leaves@.take(i as int), rows, narrowed_view, file_len) == Ok::<
                Seq<LeafRange>,
                RangeError,
            >(out@),
        decreases leaves@.len() - i,
    {
        let leaf: usize = leaves[i];
        proof {
            assert(reached_leaf_exists(
                columns@,
                leaves@,
                rows,
                narrowed_view,
                file_len,
                i as int,
            ));
            assert(leaves@.take(i + 1).drop_last() =~= leaves@.take(i as int));
            assert(leaves@.take(i + 1).last() == leaf);
        }
        match plan_leaf(&columns[leaf], leaf, rows, narrowed, file_len) {
            Ok(mut more) => {
                out.append(&mut more);
            },
            Err(e) => {
                proof {
                    lemma_first_error_wins(
                        columns@,
                        leaves@,
                        rows,
                        narrowed_view,
                        file_len,
                        i + 1,
                        e,
                    );
                }
                return Err(e);
            },
        }
        i = i + 1;
    }
    assert(leaves@.take(leaves@.len() as int) =~= leaves@);
    Ok(out)
}

/// The pieces of a row group that a selection of its rows needs.
pub fn selected_leaf_ranges(
    row_groups: &[RowGroupMeta],
    rg_idx: usize,
    leaves: &[usize],
    selection: Option<&[RowSelector]>,
    file_len: u64,
) -> (r: Result<Vec<LeafRange>, RangeError>)
    requires
        selection matches Some(s) ==> rows_before(s@, s@.len() as int) <= usize::MAX,
        leaves_exist(
            row_groups@,
            rg_idx,
            leaves@,
            match selection {
                Some(s) => Some(s@),
                None => None,
            },
            file_len,
        ),
    ensures
        same_plan(
            r,
            selection_plan(
                row_groups@,
                rg_idx,
                leaves@,
                match selection {
                    Some(s) => Some(s@),
                    None => None,
                },
                file_len,
            ),
        ),
{
    if rg_idx >= row_groups.len() {
        return Err(RangeError::RowGroupOutOfBounds { index: rg_idx, count: row_groups.len() });
    }
    let rg: &RowGroupMeta = &row_groups[rg_idx];
    if rg.num_rows < 0 || rg.num_rows as u64 > usize::MAX as u64 {
        return Err(RangeError::RowCountOverflow);
    }
    let rows: usize = rg.num_rows as usize;
    let selected: usize = match selection {
        Some(selectors) => row_count(selectors),
        None => rows,
    };
    if selected == 0 {
        return Ok(Vec::new());
    }
    let narrowed: Option<&[RowSelector]> = if selected < rows { selection } else { None };
    plan_leaves(&rg.columns, leaves, rows, narrowed, file_len)
}

proof fn lemma_first_error_wins(
    columns: Seq<ColumnChunkMeta>,
    leaves: Seq<usize>,
    rows: usize,
    selection: Option<Seq<RowSelector>>,
    file_len: u64,
    n: int,
    e: RangeError,
)
    requires
        0 <= n <= leaves.len(),
        leaves_plan(columns, leaves.take(n), rows, selection, file_len) == Err::<
            Seq<LeafRange>,
            RangeError,
        >(e),
    ensures
        leaves_plan(columns, leaves, rows, selection, file_len) == Err::<Seq<LeafRange>, RangeError>(
            e,
        ),
    decreases leaves.len() - n,
{
    if n == leaves.len() {
        assert(leaves.take(n) =~= leaves);
    } else {
        assert(leaves.take(n + 1).drop_last() =~= leaves.take(n));
        lemma_first_error_wins(columns, leaves, rows, selection, file_len, n + 1, e);
    }
}

/// Whether a piece lies within the file.
pub open spec fn within_file(r: LeafRange, file_len: u64) -> bool {
    r.start + r.len <= file_len
}

/// Every piece of a column that is fetched belongs to that column, lies within its chunk and
/// within the file.
pub proof fn leaf_plan_stays_in_chunk(
    column: ColumnChunkMeta,
    leaf: usize,
    rows: usize,
    selection: Option<Seq<RowSelector>>,
    file_len: u64,
)
    requires
        leaf_plan(column, leaf, rows, selection, file_len) is Ok,
    ensures
        forall|i: int|
            0 <= i < leaf_plan(column, leaf, rows, selection, file_len)->Ok_0.len() ==> {
                let r = #[trigger] leaf_plan(column, leaf, rows, selection, file_len)->Ok_0[i];
                &&& r.leaf == leaf
                &&& within_file(r, file_len)
                &&& column.first_offset() <= r.start
                &&& r.start + r.len <= column.first_offset() + column.compressed_size
            },
{
    if selection is Some && column.page_locations is Some && column.max_rep_level == 0 {
        let wanted = column.wanted(selection->0);
        lemma_wanted(column, rows, selection->0);
        merged_is_ascending(wanted);
        lemma_merged_within(
            wanted,
            column.first_offset() as int,
            column.first_offset() + column.compressed_size,
        );
    }
}

/// Every piece of a plan belongs to a requested leaf and lies within the file.
pub proof fn plan_stays_in_file(
    columns: Seq<ColumnChunkMeta>,
    leaves: Seq<usize>,
    rows: usize,
    selection: Option<Seq<RowSelector>>,
    file_len: u64,
)
    requires
        leaves_plan(columns, leaves, rows, selection, file_len) is Ok,
    ensures
        forall|i: int|
            0 <= i < leaves_plan(columns, leaves, rows, selection, file_len)->Ok_0.len() ==> {
                let r = #[trigger] leaves_plan(columns, leaves, rows, selection, file_len)->Ok_0[i];
                within_file(r, file_len) && leaves.contains(r.leaf)
            },
    decreases leaves.len(),
{
    if leaves.len() > 0 {
        let before = leaves.drop_last();
        plan_stays_in_file(columns, before, rows, selection, file_len);
        leaf_plan_stays_in_chunk(
            columns[leaves.last() as int],
            leaves.last(),
            rows,
            selection,
            file_len,
        );
        let a = leaves_plan(columns, before, rows, selection, file_len)->Ok_0;
        let all = leaves_plan(columns, leaves, rows, selection, file_len)->Ok_0;
        assert forall|i: int| 0 <= i < all.len() implies {
            let r = #[trigger] all[i];
            within_file(r, file_len) && leaves.contains(r.leaf)
        } by {
            if i < a.len() {
                assert(all[i] == a[i]);
                let k = choose|k: int| 0 <= k < before.len() && before[k] == a[i].leaf;
                assert(leaves[k] == a[i].leaf);
            } else {
                assert(leaves[leaves.len() - 1] == all[i].leaf);
            }
        }
    }
}

/// Whether a piece covers a range of bytes.
pub open spec fn piece_covers(piece: LeafRange, range: Range<u64>) -> bool {
    piece.start <= range.start && range.end <= piece.start + piece.len
}

/// Every page that holds a selected row is fetched.
pub proof fn selected_pages_are_fetched(
    column: ColumnChunkMeta,
    leaf: usize,
    rows: usize,
    selectors: Seq<RowSelector>,
    file_len: u64,
    j: int,
)
    requires
        leaf_plan(column, leaf, rows, Some(selectors), file_len) is Ok,
        column.page_locations is Some,
        page_locations_valid(
            column.page_locations->0@,
            column.extent(),
            column.data_page_offset,
            rows,
        ),
        0 <= j < column.page_locations->0@.len(),
        page_selected(selectors, column.page_locations->0@, j),
    ensures
        exists|k: int|
            0 <= k < leaf_plan(column, leaf, rows, Some(selectors), file_len)->Ok_0.len()
                && piece_covers(
                #[trigger] leaf_plan(column, leaf, rows, Some(selectors), file_len)->Ok_0[k],
                column.page_locations->0@[j].extent(),
            ),
{
    let pages = column.page_locations->0@;
    let plan = leaf_plan(column, leaf, rows, Some(selectors), file_len)->Ok_0;
    let n = pages.len() as int;
    lemma_wanted(column, rows, selectors);
    lemma_selected_extents(selectors, pages, column.extent(), column.data_page_offset, rows, n);
    let extents = selected_extents(selectors, pages, n);
    let wanted = column.wanted(selectors);
    assert(pages[j] == pages[j]);
    let e = choose|e: int| 0 <= e < extents.len() && extents[e] == pages[j].extent();
    let w = if column.first_offset() < pages[0].offset { e + 1 } else { e };
    assert(wanted[w] == pages[j].extent());
    lemma_plan_covers_wanted(column, leaf, rows, selectors, file_len, w);
}

/// What stands before the first data page, which holds the dictionary, is fetched whenever
/// pages are.
pub proof fn dictionary_is_fetched(
    column: ColumnChunkMeta,
    leaf: usize,
    rows: usize,
    selectors: Seq<RowSelector>,
    file_len: u64,
)
    requires
        leaf_plan(column, leaf, rows, Some(selectors), file_len) is Ok,
        column.page_locations is Some,
        page_locations_valid(
            column.page_locations->0@,
            column.extent(),
            column.data_page_offset,
            rows,
        ),
        column.first_offset() < column.data_page_offset,
    ensures
        exists|k: int|
            0 <= k < leaf_plan(column, leaf, rows, Some(selectors), file_len)->Ok_0.len()
                && piece_covers(
                #[trigger] leaf_plan(column, leaf, rows, Some(selectors), file_len)->Ok_0[k],
                Range {
                    start: column.first_offset() as u64,
                    end: column.data_page_offset as u64,
                },
            ),
{
    lemma_wanted(column, rows, selectors);
    assert(column.wanted(selectors)[0] == Range {
        start: column.first_offset() as u64,
        end: column.data_page_offset as u64,
    });
    lemma_plan_covers_wanted(column, leaf, rows, selectors, file_len, 0);
}

proof fn lemma_plan_covers_wanted(
    column: ColumnChunkMeta,
    leaf: usize,
    rows: usize,
    selectors: Seq<RowSelector>,
    file_len: u64,
    w: int,
)
    requires
        leaf_plan(column, leaf, rows, Some(selectors), file_len) is Ok,
        column.page_locations is Some,
        page_locations_valid(
            column.page_locations->0@,
            column.extent(),
            column.data_page_offset,
            rows,
        ),
        0 <= w < column.wanted(selectors).len(),
    ensures
        exists|k: int|
            0 <= k < leaf_plan(column, leaf, rows, Some(selectors), file_len)->Ok_0.len()
                && piece_covers(
                #[trigger] leaf_plan(column, leaf, rows, Some(selectors), file_len)->Ok_0[k],
                column.wanted(selectors)[w],
            ),
{
    let plan = leaf_plan(column, leaf, rows, Some(selectors), file_len)->Ok_0;
    let wanted = column.wanted(selectors);
    lemma_wanted(column, rows, selectors);
    merged_is_ascending(wanted);
    merging_loses_nothing(wanted, w);
    let m = merged(wanted);
    let k = choose|k: int| 0 <= k < m.len() && covers(#[trigger] m[k], wanted[w]);
    if column.max_rep_level != 0 || not_worthwhile(m, column.compressed_size as int) {
        assert(piece_covers(plan[0], wanted[w]));
    } else {
        assert(m[k].start <= m[k].end);
        assert(piece_covers(plan[k], wanted[w]));
    }
}

/// A plan for several leaves is the plans for the leaves one after another: planning some leaves
/// and then others is planning them all.
pub proof fn plans_join(
    columns: Seq<ColumnChunkMeta>,
    first: Seq<usize>,
    second: Seq<usize>,
    rows: usize,
    selection: Option<Seq<RowSelector>>,
    file_len: u64,
)
    ensures
        ({
            let a = leaves_plan(columns, first, rows, selection, file_len);
            let b = leaves_plan(columns, second, rows, selection, file_len);
            let all = leaves_plan(columns, first + second, rows, selection, file_len);
            &&& all is Ok <==> a is Ok && b is Ok
            &&& all is Ok ==> all->Ok_0 == a->Ok_0 + b->Ok_0
            &&& a is Err ==> all == a
            &&& a is Ok && b is Err ==> all == b
        }),
    decreases second.len(),
{
    let all = first + second;
    if second.len() == 0 {
        assert(all =~= first);
        let a = leaves_plan(columns, first, rows, selection, file_len);
        if a is Ok {
            assert(a->Ok_0 + Seq::<LeafRange>::empty() =~= a->Ok_0);
        }
    } else {
        plans_join(columns, first, second.drop_last(), rows, selection, file_len);
        assert(all.drop_last() =~= first + second.drop_last());
        assert(all.last() == second.last());
        let a = leaves_plan(columns, first, rows, selection, file_len);
        let b = leaves_plan(columns, second.drop_last(), rows, selection, file_len);
        let last = leaf_plan(
            columns[second.last() as int],
            second.last(),
            rows,
            selection,
            file_len,
        );
        if a is Ok && b is Ok && last is Ok {
            assert((a->Ok_0 + b->Ok_0) + last->Ok_0 =~= a->Ok_0 + (b->Ok_0 + last->Ok_0));
        }
    }
}

/// No requested leaf is left out: each piece that is planned for a leaf by itself is a piece of
/// the plan for all of them.
pub proof fn every_leaf_is_planned(
    columns: Seq<ColumnChunkMeta>,
    leaves: Seq<usize>,
    rows: usize,
    selection: Option<Seq<RowSelector>>,
    file_len: u64,
    i: int,
)
    requires
        leaves_plan(columns, leaves, rows, selection, file_len) is Ok,
        0 <= i < leaves.len(),
    ensures
        leaf_plan(columns[leaves[i] as int], leaves[i], rows, selection, file_len) is Ok,
        forall|k: int|
            0 <= k < leaf_plan(
                columns[leaves[i] as int],
                leaves[i],
                rows,
                selection,
                file_len,
            )->Ok_0.len() ==> leaves_plan(
                columns,
                leaves,
                rows,
                selection,
                file_len,
            )->Ok_0.contains(
                #[trigger] leaf_plan(
                    columns[leaves[i] as int],
                    leaves[i],
                    rows,
                    selection,
                    file_len,
                )->Ok_0[k],
            ),
    decreases leaves.len(),
{
    let before = leaves.drop_last();
    let a = leaves_plan(columns, before, rows, selection, file_len)->Ok_0;
    let all = leaves_plan(columns, leaves, rows, selection, file_len)->Ok_0;
    let mine = leaf_plan(
        columns[leaves[i] as int],
        leaves[i],
        rows,
        selection,
        file_len,
    )->Ok_0;
    if i < leaves.len() - 1 {
        assert(before[i] == leaves[i]);
        every_leaf_is_planned(columns, before, rows, selection, file_len, i);
        assert forall|k: int| 0 <= k < mine.len() implies all.contains(#[trigger] mine[k]) by {
            let p = choose|p: int| 0 <= p < a.len() && a[p] == mine[k];
            assert(all[p] == mine[k]);
        }
    } else {
        assert(leaves.last() == leaves[i]);
        assert forall|k: int| 0 <= k < mine.len() implies all.contains(#[trigger] mine[k]) by {
            assert(all[a.len() + k] == mine[k]);
        }
    }
}

/// Nothing is fetched for nothing: every piece of a plan is planned for a requested leaf by
/// itself.
pub proof fn every_piece_is_planned_for_a_leaf(
    columns: Seq<ColumnChunkMeta>,
    leaves: Seq<usize>,
    rows: usize,
    selection: Option<Seq<RowSelector>>,
    file_len: u64,
    p: int,
) -> (i: int)
    requires
        leaves_plan(columns, leaves, rows, selection, file_len) is Ok,
        0 <= p < leaves_plan(columns, leaves, rows, selection, file_len)->Ok_0.len(),
    ensures
        0 <= i < leaves.len(),
        leaf_plan(columns[leaves[i] as int], leaves[i], rows, selection, file_len) is Ok,
        leaf_plan(
            columns[leaves[i] as int],
            leaves[i],
            rows,
            selection,
            file_len,
        )->Ok_0.contains(leaves_plan(columns, leaves, rows, selection, file_len)->Ok_0[p]),
    decreases leaves.len(),
{
    let before = leaves.drop_last();
    let a = leaves_plan(columns, before, rows, selection, file_len)->Ok_0;
    let all = leaves_plan(columns, leaves, rows, selection, file_len)->Ok_0;
    if p < a.len() {
        let i = every_piece_is_planned_for_a_leaf(columns, before, rows, selection, file_len, p);
        assert(before[i] == leaves[i]);
        assert(all[p] == a[p]);
        i
    } else {
        let mine = leaf_plan(
            columns[leaves.last() as int],
            leaves.last(),
            rows,
            selection,
            file_len,
        )->Ok_0;
        assert(all[p] == mine[p - a.len()]);
        leaves.len() - 1
    }
}

/// A plan fails if and only if one of its leaves cannot be planned, and with the error of the
/// first such leaf.
pub proof fn plans_fail_with_their_first_bad_leaf(
    columns: Seq<ColumnChunkMeta>,
    leaves: Seq<usize>,
    rows: usize,
    selection: Option<Seq<RowSelector>>,
    file_len: u64,
    i: int,
)
    requires
        0 <= i < leaves.len(),
        forall|j: int|
            0 <= j < i ==> leaf_plan(
                columns[#[trigger] leaves[j] as int],
                leaves[j],
                rows,
                selection,
                file_len,
            ) is Ok,
        leaf_plan(columns[leaves[i] as int], leaves[i], rows, selection, file_len) is Err,
    ensures
        leaves_plan(columns, leaves, rows, selection, file_len) is Err,
        leaves_plan(columns, leaves, rows, selection, file_len)->Err_0 == leaf_plan(
            columns[leaves[i] as int],
            leaves[i],
            rows,
            selection,
            file_len,
        )->Err_0,
    decreases leaves.len(),
{
    let before = leaves.drop_last();
    if i < leaves.len() - 1 {
        assert forall|j: int| 0 <= j < i implies leaf_plan(
            columns[#[trigger] before[j] as int],
            before[j],
            rows,
            selection,
            file_len,
        ) is Ok by {
            assert(before[j] == leaves[j]);
        }
        assert(before[i] == leaves[i]);
        plans_fail_with_their_first_bad_leaf(columns, before, rows, selection, file_len, i);
    } else {
        assert forall|j: int| 0 <= j < before.len() implies leaf_plan(
            columns[#[trigger] before[j] as int],
            before[j],
            rows,
            selection,
            file_len,
        ) is Ok by {
            assert(before[j] == leaves[j]);
        }
        plans_succeed_with_good_leaves(columns, before, rows, selection, file_len);
        assert(leaves.last() == leaves[i]);
    }
}

/// Leaves that can all be planned can be planned together.
pub proof fn plans_succeed_with_good_leaves(
    columns: Seq<ColumnChunkMeta>,
    leaves: Seq<usize>,
    rows: usize,
    selection: Option<Seq<RowSelector>>,
    file_len: u64,
)
    requires
        forall|j: int|
            0 <= j < leaves.len() ==> leaf_plan(
                columns[#[trigger] leaves[j] as int],
                leaves[j],
                rows,
                selection,
                file_len,
            ) is Ok,
    ensures
        leaves_plan(columns, leaves, rows, selection, file_len) is Ok,
    decreases leaves.len(),
{
    if leaves.len() > 0 {
        let before = leaves.drop_last();
        assert forall|j: int| 0 <= j < before.len() implies leaf_plan(
            columns[#[trigger] before[j] as int],
            before[j],
            rows,
            selection,
            file_len,
        ) is Ok by {
            assert(before[j] == leaves[j]);
        }
        plans_succeed_with_good_leaves(columns, before, rows, selection, file_len);
        assert(leaves[leaves.len() - 1] == leaves.last());
    }
}

/// Where a chunk begins, and when it can be planned at all: the footer must give it a place that
/// is not before or behind the file. A chunk is fetched as a whole where all rows are wanted,
/// where its pages are not known, and where its rows can span pages; in every other case its
/// pages must be ones that can be trusted.
pub proof fn chunks_are_checked_before_they_are_planned(
    column: ColumnChunkMeta,
    leaf: usize,
    rows: usize,
    selection: Option<Seq<RowSelector>>,
    file_len: u64,
)
    ensures
        ({
            let begin = if column.dictionary_page_offset is Some {
                column.dictionary_page_offset->0
            } else {
                column.data_page_offset
            };
            let size = column.compressed_size;
            let plan = leaf_plan(column, leaf, rows, selection, file_len);
            let by_page = selection is Some && column.page_locations is Some
                && column.max_rep_level == 0;
            let trusted = page_locations_valid(
                column.page_locations->0@,
                Range { start: begin as u64, end: (begin + size) as u64 },
                column.data_page_offset,
                rows,
            );
            &&& begin < 0 || size < 0 <==> plan == Err::<Seq<LeafRange>, RangeError>(
                RangeError::InvalidColumnRange,
            )
            &&& begin >= 0 && size >= 0 && begin + size > file_len <==> plan == Err::<
                Seq<LeafRange>,
                RangeError,
            >(RangeError::ColumnExceedsFile)
            &&& begin >= 0 && size >= 0 && begin + size <= file_len && by_page && !trusted <==> plan
                == Err::<Seq<LeafRange>, RangeError>(RangeError::InvalidPageLocations)
            &&& begin >= 0 && size >= 0 && begin + size <= file_len && !by_page ==> plan == Ok::<
                Seq<LeafRange>,
                RangeError,
            >(seq![LeafRange { leaf, start: begin as u64, len: size as u64 }])
            &&& begin >= 0 && size >= 0 && begin + size <= file_len && by_page && trusted ==> plan
                is Ok
        }),
{
}

/// Pages can be trusted where the first is the chunk's first data page and begins with row 0, and
/// each page has bytes, lies in the chunk, begins at one of its rows, and neither begins before
/// the page before it ends nor at a row that is not behind the first row of that page.
pub proof fn pages_are_trusted_one_by_one(
    pages: Seq<PageLocation>,
    chunk: Range<u64>,
    data_offset: i64,
    rows: usize,
)
    ensures
        page_locations_valid(pages, chunk, data_offset, rows) <==> {
            &&& pages.len() > 0
            &&& pages[0].first_row_index == 0
            &&& pages[0].offset == data_offset
            &&& chunk.start <= pages[0].offset
            &&& forall|i: int|
                0 <= i < pages.len() ==> {
                    &&& 0 <= (#[trigger] pages[i]).offset
                    &&& 0 < pages[i].compressed_page_size
                    &&& pages[i].offset + pages[i].compressed_page_size <= chunk.end
                    &&& 0 <= pages[i].first_row_index < rows
                    &&& i > 0 ==> pages[i - 1].offset + pages[i - 1].compressed_page_size
                        <= pages[i].offset && pages[i - 1].first_row_index < pages[i].first_row_index
                }
        },
{
    if pages.len() > 0 && forall|i: int|
        0 <= i < pages.len() ==> {
            &&& 0 <= (#[trigger] pages[i]).offset
            &&& 0 < pages[i].compressed_page_size
            &&& pages[i].offset + pages[i].compressed_page_size <= chunk.end
            &&& 0 <= pages[i].first_row_index < rows
            &&& i > 0 ==> pages[i - 1].offset + pages[i - 1].compressed_page_size <= pages[i].offset
                && pages[i - 1].first_row_index < pages[i].first_row_index
        } {
        assert forall|i: int, j: int|
            #![trigger pages[i], pages[j]]
            0 <= i < j < pages.len() implies pages[i].end() <= pages[j].offset
            && pages[i].first_row_index < pages[j].first_row_index by {
            lemma_pages_ascend(pages, i, j);
        }
    }
}

proof fn lemma_pages_ascend(pages: Seq<PageLocation>, i: int, j: int)
    requires
        0 <= i < j < pages.len(),
        forall|k: int|
            0 <= k < pages.len() ==> {
                &&& 0 < (#[trigger] pages[k]).compressed_page_size
                &&& k > 0 ==> pages[k - 1].offset + pages[k - 1].compressed_page_size
                    <= pages[k].offset && pages[k - 1].first_row_index < pages[k].first_row_index
            },
    ensures
        pages[i].end() <= pages[j].offset,
        pages[i].first_row_index < pages[j].first_row_index,
    decreases j - i,
{
    assert(pages[j].compressed_page_size > 0);
    if i < j - 1 {
        lemma_pages_ascend(pages, i, j - 1);
        assert(pages[j - 1].compressed_page_size > 0);
    }
}

/// The bytes of ranges are counted range by range.
pub proof fn range_lengths_add_up(ranges: Seq<Range<u64>>, range: Range<u64>)
    ensures
        total_len(Seq::empty()) == 0,
        total_len(ranges.push(range)) == total_len(ranges) + (range.end - range.start),
{
    assert(ranges.push(range).drop_last() =~= ranges);
}

/// The rows of a selection are counted run by run, the selected ones only where a run is not
/// skipped.
pub proof fn selected_rows_add_up(selectors: Seq<RowSelector>, n: int)
    requires
        0 <= n,
    ensures
        rows_before(selectors, 0) == 0,
        selected_before(selectors, 0) == 0,
        rows_before(selectors, n + 1) == rows_before(selectors, n) + selectors[n].row_count,
        selectors[n].skip ==> selected_before(selectors, n + 1) == selected_before(selectors, n),
        !selectors[n].skip ==> selected_before(selectors, n + 1) == selected_before(selectors, n)
            + selectors[n].row_count,
{
}

/// By page, a chunk is fetched in no more than 32 pieces, and only where that saves at least a
/// fifth of its bytes; where it does, what is fetched is exactly the merged ranges.
pub proof fn pages_are_fetched_where_that_saves_enough(
    column: ColumnChunkMeta,
    leaf: usize,
    rows: usize,
    selectors: Seq<RowSelector>,
    file_len: u64,
)
    requires
        leaf_plan(column, leaf, rows, Some(selectors), file_len) is Ok,
        column.page_locations is Some,
        column.max_rep_level == 0,
    ensures
        ({
            let plan = leaf_plan(column, leaf, rows, Some(selectors), file_len)->Ok_0;
            let ranges = merged(column.wanted(selectors));
            if ranges.len() <= 32 && total_len(ranges) * 5 < column.compressed_size * 4 {
                &&& plan.len() == ranges.len()
                &&& forall|k: int|
                    0 <= k < ranges.len() ==> {
                        &&& (#[trigger] plan[k]).leaf == leaf
                        &&& plan[k].start == ranges[k].start
                        &&& plan[k].start + plan[k].len == ranges[k].end
                    }
            } else {
                &&& plan.len() == 1
                &&& plan[0].leaf == leaf
                &&& plan[0].start == column.first_offset()
                &&& plan[0].len == column.compressed_size
            }
        }),
{
    lemma_wanted(column, rows, selectors);
    merged_is_ascending(column.wanted(selectors));
}

proof fn lemma_merged_end(ranges: Seq<Range<u64>>, k: int) -> (i: int)
    requires
        0 <= k < merged(ranges).len(),
    ensures
        0 <= i < ranges.len(),
        ranges[i].end == merged(ranges)[k].end,
    decreases ranges.len(),
{
    let before = ranges.drop_last();
    let m = merged(before);
    let r = merged(ranges);
    if k < m.len() && r[k].end == m[k].end {
        let i = lemma_merged_end(before, k);
        assert(before[i] == ranges[i]);
        i
    } else {
        ranges.len() - 1
    }
}

/// Merging bridges no larger gap than 65536 bytes: every byte that is fetched lies in a wanted
/// range or no further behind the end of one.
pub proof fn merging_bridges_small_gaps_only(ranges: Seq<Range<u64>>, k: int, byte: int) -> (i: int)
    requires
        0 <= k < merged(ranges).len(),
        merged(ranges)[k].start <= byte < merged(ranges)[k].end,
    ensures
        0 <= i < ranges.len(),
        ranges[i].start <= byte < ranges[i].end || ranges[i].end <= byte < ranges[i].end + 65_536,
    decreases ranges.len(),
{
    let before = ranges.drop_last();
    let m = merged(before);
    let r = merged(ranges);
    let last = ranges.last();
    if k < m.len() && m[k].start <= byte < m[k].end {
        let i = merging_bridges_small_gaps_only(before, k, byte);
        assert(before[i] == ranges[i]);
        i
    } else if last.start <= byte < last.end {
        ranges.len() - 1
    } else {
        assert(k == m.len() - 1);
        let i = lemma_merged_end(before, k);
        assert(before[i] == ranges[i]);
        i
    }
}

/// Merged ranges are as few as gaps of 65536 bytes allow: of two that follow each other, the
/// second begins further than that behind the end of the first.
pub proof fn merged_ranges_are_far_apart(ranges: Seq<Range<u64>>, k: int)
    requires
        forall|i: int| 0 <= i < ranges.len() ==> (#[trigger] ranges[i]).start <= ranges[i].end,
        0 < k < merged(ranges).len(),
    ensures
        merged(ranges)[k - 1].end + 65_536 < merged(ranges)[k].start,
{
    merged_is_ascending(ranges);
}

/// What a selection needs of a chunk is what stands before its first data page, if anything
/// does, and the pages that hold a selected row, in their order.
pub proof fn only_selected_pages_are_wanted(
    column: ColumnChunkMeta,
    selectors: Seq<RowSelector>,
    k: int,
) -> (j: int)
    requires
        column.page_locations is Some,
        column.page_locations->0@.len() > 0,
        0 <= k < column.wanted(selectors).len(),
        k > 0 || column.first_offset() >= column.page_locations->0@[0].offset,
    ensures
        0 <= j < column.page_locations->0@.len(),
        column.wanted(selectors)[k] == column.page_locations->0@[j].extent(),
        exists|row: int| #[trigger]
            row_selected(selectors, row) && column.page_locations->0@[j].first_row_index <= row && (j
                + 1 < column.page_locations->0@.len() ==> row < column.page_locations->0@[j
                + 1].first_row_index),
{
    let pages = column.page_locations->0@;
    let at = if column.first_offset() < pages[0].offset { k - 1 } else { k };
    lemma_extent_of_page(selectors, pages, pages.len() as int, at)
}

proof fn lemma_extent_of_page(
    selectors: Seq<RowSelector>,
    pages: Seq<PageLocation>,
    n: int,
    k: int,
) -> (j: int)
    requires
        0 <= n <= pages.len(),
        0 <= k < selected_extents(selectors, pages, n).len(),
    ensures
        0 <= j < n,
        selected_extents(selectors, pages, n)[k] == pages[j].extent(),
        page_selected(selectors, pages, j),
    decreases n,
{
    if n <= 0 {
        0
    } else if k < selected_extents(selectors, pages, n - 1).len() {
        lemma_extent_of_page(selectors, pages, n - 1, k)
    } else {
        n - 1
    }
}

proof fn lemma_selected_grows(selectors: Seq<RowSelector>, k: int, n: int)
    requires
        0 <= k < n,
        !selectors[k].skip,
    ensures
        selected_before(selectors, n) >= selectors[k].row_count,
    decreases n,
{
    if k < n - 1 {
        lemma_selected_grows(selectors, k, n - 1);
    }
}

proof fn lemma_nothing_selected(selectors: Seq<RowSelector>, n: int)
    requires
        0 <= n <= selectors.len(),
        forall|k: int|
            0 <= k < selectors.len() ==> (#[trigger] selectors[k]).skip || selectors[k].row_count
                == 0,
    ensures
        selected_before(selectors, n) == 0,
    decreases n,
{
    if n > 0 {
        lemma_nothing_selected(selectors, n - 1);
        assert(selectors[n - 1].skip || selectors[n - 1].row_count == 0);
    }
}

/// Nothing is fetched for a selection without rows, nor of a row group without rows.
pub proof fn nothing_is_fetched_for_no_rows(
    row_groups: Seq<RowGroupMeta>,
    rg_idx: usize,
    leaves: Seq<usize>,
    selectors: Seq<RowSelector>,
    file_len: u64,
)
    requires
        rg_idx < row_groups.len(),
        0 <= row_groups[rg_idx as int].num_rows <= usize::MAX,
    ensures
        (forall|k: int|
            0 <= k < selectors.len() ==> (#[trigger] selectors[k]).skip || selectors[k].row_count
                == 0) ==> selection_plan(
            row_groups,
            rg_idx,
            leaves,
            Some(selectors),
            file_len,
        ) == Ok::<Seq<LeafRange>, RangeError>(Seq::empty()),
        row_groups[rg_idx as int].num_rows == 0 ==> selection_plan(
            row_groups,
            rg_idx,
            leaves,
            None,
            file_len,
        ) == Ok::<Seq<LeafRange>, RangeError>(Seq::empty()),
{
    if forall|k: int|
        0 <= k < selectors.len() ==> (#[trigger] selectors[k]).skip || selectors[k].row_count == 0 {
        lemma_nothing_selected(selectors, selectors.len() as int);
    }
}

/// A row group must exist and have a number of rows that can be counted; a selection of as many
/// rows as it has, or of more, needs what all rows need, which is each chunk as a whole.
pub proof fn selections_of_all_rows_need_whole_chunks(
    row_groups: Seq<RowGroupMeta>,
    rg_idx: usize,
    leaves: Seq<usize>,
    selection: Option<Seq<RowSelector>>,
    file_len: u64,
)
    ensures
        rg_idx >= row_groups.len() ==> selection_plan(
            row_groups,
            rg_idx,
            leaves,
            selection,
            file_len,
        ) == Err::<Seq<LeafRange>, RangeError>(
            RangeError::RowGroupOutOfBounds { index: rg_idx, count: row_groups.len() as usize },
        ),
        rg_idx < row_groups.len() && (row_groups[rg_idx as int].num_rows < 0
            || row_groups[rg_idx as int].num_rows > usize::MAX) ==> selection_plan(
            row_groups,
            rg_idx,
            leaves,
            selection,
            file_len,
        ) == Err::<Seq<LeafRange>, RangeError>(RangeError::RowCountOverflow),
        rg_idx < row_groups.len() && 0 < row_groups[rg_idx as int].num_rows <= usize::MAX && (
        selection matches Some(s) ==> selected_before(s, s.len() as int)
            >= row_groups[rg_idx as int].num_rows) ==> selection_plan(
            row_groups,
            rg_idx,
            leaves,
            selection,
            file_len,
        ) == leaves_plan(
            row_groups[rg_idx as int].columns@,
            leaves,
            row_groups[rg_idx as int].num_rows as usize,
            None,
            file_len,
        ),
{
}

/// No requested leaf is left out when rows are selected: each piece that the selection needs of
/// a leaf by itself is a piece of the plan for the row group, where it selects some row but not
/// all.
pub proof fn every_selected_leaf_is_planned(
    row_groups: Seq<RowGroupMeta>,
    rg_idx: usize,
    leaves: Seq<usize>,
    selectors: Seq<RowSelector>,
    file_len: u64,
    i: int,
    k: int,
)
    requires
        selection_plan(row_groups, rg_idx, leaves, Some(selectors), file_len) is Ok,
        0 <= i < leaves.len(),
        0 < selected_before(selectors, selectors.len() as int)
            < row_groups[rg_idx as int].num_rows,
    ensures
        ({
            let all = selection_plan(row_groups, rg_idx, leaves, Some(selectors), file_len)->Ok_0;
            let rg = row_groups[rg_idx as int];
            let mine = leaf_plan(
                rg.columns@[leaves[i] as int],
                leaves[i],
                rg.num_rows as usize,
                Some(selectors),
                file_len,
            );
            &&& mine is Ok
            &&& 0 <= k < mine->Ok_0.len() ==> all.contains(mine->Ok_0[k])
        }),
{
    let rg = row_groups[rg_idx as int];
    every_leaf_is_planned(
        rg.columns@,
        leaves,
        rg.num_rows as usize,
        Some(selectors),
        file_len,
        i,
    );
}

/// Whatever leaves are requested: the page of a leaf that holds a selected row lies within a
/// piece of the plan that belongs to that leaf.
pub proof fn selected_rows_are_fetched_of_every_leaf(
    row_groups: Seq<RowGroupMeta>,
    rg_idx: usize,
    leaves: Seq<usize>,
    selectors: Seq<RowSelector>,
    file_len: u64,
    i: int,
    j: int,
    row: int,
) -> (p: int)
    requires
        selection_plan(row_groups, rg_idx, leaves, Some(selectors), file_len) is Ok,
        0 <= i < leaves.len(),
        ({
            let rg = row_groups[rg_idx as int];
            let column = rg.columns@[leaves[i] as int];
            let pages = column.page_locations->0@;
            &&& column.page_locations is Some
            &&& page_locations_valid(
                pages,
                column.extent(),
                column.data_page_offset,
                rg.num_rows as usize,
            )
            &&& 0 <= j < pages.len()
            &&& pages[j].first_row_index <= row
            &&& j + 1 < pages.len() ==> row < pages[j + 1].first_row_index
        }),
        row_selected(selectors, row),
    ensures
        ({
            let plan = selection_plan(row_groups, rg_idx, leaves, Some(selectors), file_len)->Ok_0;
            let column = row_groups[rg_idx as int].columns@[leaves[i] as int];
            let page = column.page_locations->0@[j];
            &&& 0 <= p < plan.len()
            &&& plan[p].leaf == leaves[i]
            &&& plan[p].start <= page.offset
            &&& page.offset + page.compressed_page_size <= plan[p].start + plan[p].len
        }),
{
    let rg = row_groups[rg_idx as int];
    let rows = rg.num_rows as usize;
    let leaf = leaves[i];
    let column = rg.columns@[leaf as int];
    let pages = column.page_locations->0@;
    let k = choose|k: int|
        0 <= k < selectors.len() && !(#[trigger] selectors[k]).skip && rows_before(selectors, k)
            <= row < rows_before(selectors, k) + selectors[k].row_count;
    lemma_selected_grows(selectors, k, selectors.len() as int);
    let selected = selected_before(selectors, selectors.len() as int);
    let narrowed = if selected < rows { Some(selectors) } else { None };
    every_leaf_is_planned(rg.columns@, leaves, rows, narrowed, file_len, i);
    let all = selection_plan(row_groups, rg_idx, leaves, Some(selectors), file_len)->Ok_0;
    let mine = leaf_plan(column, leaf, rows, narrowed, file_len)->Ok_0;
    assert(0 <= pages[j].offset && pages[j].end() <= column.extent().end && pages[0].offset
        <= pages[j].offset);
    let q = if selected < rows {
        assert(page_selected(selectors, pages, j));
        selected_pages_are_fetched(column, leaf, rows, selectors, file_len, j);
        choose|q: int| 0 <= q < mine.len() && piece_covers(#[trigger] mine[q], pages[j].extent())
    } else {
        0
    };
    leaf_plan_stays_in_chunk(column, leaf, rows, narrowed, file_len);
    assert(mine[q].leaf == leaf);
    assert(all.contains(mine[q]));
    choose|p: int| 0 <= p < all.len() && all[p] == mine[q]
}

/// A computed plan is the one that is asked for exactly where both have the same pieces in the
/// same order, or the same error.
pub proof fn computed_plans_are_exact(
    r: Result<Vec<LeafRange>, RangeError>,
    plan: Result<Seq<LeafRange>, RangeError>,
)
    requires
        same_plan(r, plan),
    ensures
        r is Ok <==> plan is Ok,
        r is Ok ==> r->Ok_0@ == plan->Ok_0,
        r is Err ==> r->Err_0 == plan->Err_0,
{
}

/// One more run of rows selects its own rows, if it is not skipped, and no others: those behind
/// all rows of the runs before it, as many as it has.
pub proof fn rows_are_selected_run_by_run(selectors: Seq<RowSelector>, run: RowSelector, row: int)
    ensures
        !row_selected(Seq::empty(), row),
        row_selected(selectors.push(run), row) <==> row_selected(selectors, row) || (!run.skip
            && rows_before(selectors, selectors.len() as int) <= row < rows_before(
            selectors,
            selectors.len() as int,
        ) + run.row_count),
{
    let all = selectors.push(run);
    let n = selectors.len() as int;
    lemma_rows_of_prefix(selectors, run, n);
    assert(all[n] == run);
    if row_selected(selectors, row) {
        let k = choose|k: int|
            0 <= k < selectors.len() && !(#[trigger] selectors[k]).skip && rows_before(selectors, k)
                <= row < rows_before(selectors, k) + selectors[k].row_count;
        lemma_rows_of_prefix(selectors, run, k);
        assert(!all[k].skip);
    }
    if row_selected(all, row) {
        let k = choose|k: int|
            0 <= k < all.len() && !(#[trigger] all[k]).skip && rows_before(all, k) <= row
                < rows_before(all, k) + all[k].row_count;
        lemma_rows_of_prefix(selectors, run, k);
        if k < n {
            assert(!selectors[k].skip);
        }
    }
}

proof fn lemma_rows_of_prefix(selectors: Seq<RowSelector>, run: RowSelector, n: int)
    requires
        0 <= n <= selectors.len(),
    ensures
        rows_before(selectors.push(run), n) == rows_before(selectors, n),
    decreases n,
{
    if n > 0 {
        lemma_rows_of_prefix(selectors, run, n - 1);
    }
}

/// A page is fetched for its rows: those from its first one up to the first one of the next page,
/// and all from its first one on where it is the last.
pub proof fn pages_hold_their_rows(
    selectors: Seq<RowSelector>,
    pages: Seq<PageLocation>,
    j: int,
    row: int,
)
    requires
        0 <= j < pages.len(),
        row_selected(selectors, row),
        pages[j].first_row_index <= row,
        j + 1 == pages.len() || row < pages[j + 1].first_row_index,
    ensures
        page_selected(selectors, pages, j),
{
}

} // verus!
