use std::collections::HashMap;

use bytes::Bytes;
use daft_flotilla::chunk_reader::{
    check_index_response, check_response, group_len, index_request, local_requests,
    read_rg_chunks_sync, read_selected_chunks, selected_requests, FetchedGroup, ReadError,
};
use daft_flotilla::chunk_source::{
    coalesce_and_split_with_gap, coalesce_ranges, RangeGroup, LOCAL_COALESCE_GAP,
    MAX_REQUEST_SIZE, REMOTE_COALESCE_GAP, SPLIT_THRESHOLD,
};
use daft_flotilla::io_error::{IoError, IoErrorKind};
use daft_flotilla::offset_bytes::{ChunkError, Fragment, OffsetBytes};
use daft_flotilla::page_ranges::{
    merge_page_ranges, row_count, selected_leaf_ranges, validate_page_locations, ColumnChunkMeta,
    LeafRange, PageLocation, RangeError, RowGroupMeta, RowSelector, MAX_PAGE_RANGES,
    PAGE_COALESCE_GAP,
};
use daft_flotilla::remote_chunks::{
    active_columns, build, next_read, open_rg, read_exact_range, sort_and_dedup, ExactRead,
    OpenMode, ReadProgress, RemoteChunkSource, SourceKind,
};

fn page(offset: i64, size: i32, row: i64) -> PageLocation {
    PageLocation { offset, compressed_page_size: size, first_row_index: row }
}

fn io_error(kind: IoErrorKind) -> IoError {
    IoError::new(kind, "test")
}

fn piece(leaf: usize, start: u64, len: u64) -> LeafRange {
    LeafRange { leaf, start, len }
}

fn selector(row_count: usize, skip: bool) -> RowSelector {
    RowSelector { row_count, skip }
}

#[test]
fn validates_offsets_and_flat_row_boundaries() {
    let valid = vec![page(100, 100, 0), page(200, 80, 20)];
    assert!(validate_page_locations(&valid, 50..280, 100, 40).is_ok());
    for pages in [
        vec![],
        vec![page(-1, 100, 0)],
        vec![page(100, -1, 0)],
        vec![page(100, 0, 0)],
        vec![page(100, 100, 1)],
        vec![page(100, 181, 0)],
        vec![page(100, 100, 0), page(190, 80, 20)],
        vec![page(100, 100, 0), page(200, 80, 0)],
        vec![page(100, 100, 0), page(200, 80, 40)],
    ] {
        assert_eq!(
            validate_page_locations(&pages, 50..280, 100, 40),
            Err(RangeError::InvalidPageLocations)
        );
    }
}

#[test]
fn coalesces_only_small_page_gaps() {
    assert_eq!(
        merge_page_ranges(vec![4..100, 100..200, 201..300, 100_000..100_100]),
        vec![4..300, 100_000..100_100]
    );
}

/// Fills `output` from `offset` on with what `read` delivers.
fn read_exact(
    output: &mut [u8],
    offset: u64,
    mut read: impl FnMut(&mut [u8], u64) -> Result<usize, IoError>,
) -> Result<(), IoError> {
    let total = output.len();
    let mut state = ExactRead { offset, missing: total };
    let mut progress = next_read(&state);
    loop {
        match progress {
            ReadProgress::Done => return Ok(()),
            ReadProgress::Fail(e) => return Err(e),
            ReadProgress::Again => {
                let from = total - state.missing;
                let outcome = read(&mut output[from..], state.offset);
                progress = read_exact_range(&mut state, outcome);
            }
        }
    }
}

#[test]
fn exact_reads_retry_interruptions_and_short_reads() {
    let input = [1, 2, 3, 4, 5];
    let mut output = [0; 5];
    let mut offsets = Vec::new();
    read_exact(&mut output, 100, |buf, offset| {
        offsets.push(offset);
        if offsets.len() == 1 {
            return Err(io_error(IoErrorKind::Interrupted));
        }
        let n = buf.len().min(2);
        let start = (offset - 100) as usize;
        buf[..n].copy_from_slice(&input[start..start + n]);
        Ok(n)
    })
    .unwrap_or_else(|e| panic!("{}", e.message));
    assert_eq!(input, output);
    assert_eq!(offsets, [100, 100, 102, 104]);
}

#[test]
fn exact_reads_propagate_eof_and_errors() {
    let eof = read_exact(&mut [0; 4], 0, |buf, offset| {
        if offset == 0 {
            buf[..2].copy_from_slice(&[1, 2]);
            Ok(2)
        } else {
            Ok(0)
        }
    })
    .err()
    .unwrap();
    assert_eq!(eof.kind, IoErrorKind::UnexpectedEof);
    assert_eq!(eof.message, "short Parquet range read");
    let error = read_exact(&mut [0; 1], 0, |_, _| Err(io_error(IoErrorKind::PermissionDenied)))
        .err()
        .unwrap();
    assert_eq!(error.kind, IoErrorKind::PermissionDenied);
}

#[test]
fn exact_reads_of_nothing_do_not_read() {
    assert!(read_exact(&mut [], u64::MAX, |_, _| unreachable!()).is_ok());
    let overflow = read_exact(&mut [0; 2], u64::MAX, |_, _| Ok(1)).err().unwrap();
    assert_eq!(overflow.kind, IoErrorKind::InvalidInput);
    assert_eq!(overflow.message, "Parquet read offset overflow");
}

fn fragment(offset: u64, bytes: &'static [u8]) -> Fragment {
    Fragment { offset, bytes: Bytes::from_static(bytes) }
}

#[test]
fn sparse_bytes_use_absolute_offsets_and_reject_gaps() {
    let bytes = OffsetBytes::from_fragments(300, vec![fragment(200, b"xy"), fragment(100, b"abc")]);
    assert_eq!(bytes.len(), 300);
    assert_eq!(bytes.get_bytes(100, 3).unwrap().as_ref(), b"abc");
    assert_eq!(bytes.get_bytes(200, 2).unwrap().as_ref(), b"xy");
    assert!(bytes.get_bytes(99, 1).is_err());
    assert!(bytes.get_bytes(102, 2).is_err());
    assert!(bytes.get_bytes(150, 1).is_err());
    assert!(bytes.get_bytes(201, usize::MAX).is_err());
    assert!(bytes.get_read(150).is_err());
}

#[test]
fn sparse_bytes_say_what_is_missing() {
    let bytes = OffsetBytes::from_fragments(300, vec![fragment(200, b"xy"), fragment(100, b"abc")]);
    assert_eq!(bytes.get_bytes(99, 1), Err(ChunkError::NotFetched { start: 99 }));
    assert_eq!(
        bytes.get_bytes(102, 2),
        Err(ChunkError::BytesPastEnd { local: 2, end: 4, len: 3 })
    );
    assert_eq!(bytes.get_bytes(201, usize::MAX), Err(ChunkError::OffsetOverflow));
    assert_eq!(
        bytes.get_read(150),
        Err(ChunkError::ReadPastEnd { start: 150, local: 50, len: 3 })
    );
    assert_eq!(bytes.get_read(101).unwrap().as_ref(), b"bc");
    assert_eq!(bytes.get_read(103).unwrap().as_ref(), b"");
    assert_eq!(
        ChunkError::NotFetched { start: 99 }.message(),
        "Parquet byte offset 99 was not fetched"
    );
    assert_eq!(
        ChunkError::BytesPastEnd { local: 2, end: 4, len: 3 }.message(),
        "OffsetBytes::get_bytes: range 2..4 past chunk end (len 3)"
    );
    assert_eq!(
        ChunkError::ReadPastEnd { start: 150, local: 50, len: 3 }.message(),
        "OffsetBytes::get_read: start 150 past chunk end (local 50 > len 3)"
    );
    assert_eq!(ChunkError::OffsetOverflow.message(), "OffsetBytes::get_bytes: offset overflow");
}

#[test]
fn contiguous_bytes_begin_at_their_base() {
    let bytes = OffsetBytes::contiguous(100, 300, Bytes::from_static(b"abcde"));
    assert_eq!(bytes.len(), 300);
    assert_eq!(bytes.get_bytes(101, 3).unwrap().as_ref(), b"bcd");
    assert_eq!(bytes.get_read(102).unwrap().as_ref(), b"cde");
    assert_eq!(
        bytes.get_read(99),
        Err(ChunkError::InvalidReadStart { start: 99, base: 100 })
    );
    assert_eq!(
        bytes.get_bytes(99, 1),
        Err(ChunkError::InvalidBytesStart { start: 99, base: 100 })
    );
    assert_eq!(
        ChunkError::InvalidReadStart { start: 99, base: 100 }.message(),
        "OffsetBytes::get_read: invalid start 99 relative to base 100"
    );
    assert_eq!(
        ChunkError::InvalidBytesStart { start: 99, base: 100 }.message(),
        "OffsetBytes::get_bytes: invalid start 99 relative to base 100"
    );
}

#[test]
fn fragments_are_found_whatever_their_order() {
    let forward = OffsetBytes::from_fragments(9, vec![fragment(1, b"ab"), fragment(5, b"cd")]);
    let backward = OffsetBytes::from_fragments(9, vec![fragment(5, b"cd"), fragment(1, b"ab")]);
    for start in 0..9 {
        for len in 0..3 {
            assert_eq!(forward.get_bytes(start, len).ok(), backward.get_bytes(start, len).ok());
        }
    }
}

#[test]
fn merging_stops_at_the_gap() {
    assert_eq!(PAGE_COALESCE_GAP, 65_536);
    assert_eq!(merge_page_ranges(vec![0..10, 3..5, 12..20]), vec![0..20]);
    assert_eq!(merge_page_ranges(vec![0..10, 65_546..65_550]), vec![0..65_550]);
    assert_eq!(merge_page_ranges(vec![0..10, 65_547..65_550]), vec![0..10, 65_547..65_550]);
    assert_eq!(merge_page_ranges(vec![]), Vec::<std::ops::Range<u64>>::new());
}

#[test]
fn selected_rows_are_counted() {
    assert_eq!(row_count(&[selector(3, false), selector(4, true), selector(2, false)]), 5);
    assert_eq!(row_count(&[]), 0);
}

/// A row group of fifty rows whose only column has three pages behind a dictionary.
fn paged(max_rep_level: i16) -> RowGroupMeta {
    RowGroupMeta {
        num_rows: 50,
        columns: vec![ColumnChunkMeta {
            dictionary_page_offset: Some(4),
            data_page_offset: 100,
            compressed_size: 200_146,
            max_rep_level,
            page_locations: Some(vec![
                page(100, 100_000, 0),
                page(100_100, 100_000, 20),
                page(200_100, 50, 40),
            ]),
        }],
    }
}

#[test]
fn a_selection_fetches_its_pages_and_the_dictionary() {
    let row_groups = [paged(0)];
    let last = [selector(45, true), selector(5, false)];
    assert_eq!(
        selected_leaf_ranges(&row_groups, 0, &[0], Some(&last), 300_000),
        Ok(vec![piece(0, 4, 96), piece(0, 200_100, 50)])
    );
    let first = [selector(1, false), selector(49, true)];
    assert_eq!(
        selected_leaf_ranges(&row_groups, 0, &[0], Some(&first), 300_000),
        Ok(vec![piece(0, 4, 100_096)])
    );
    assert_eq!(
        selected_leaf_ranges(&row_groups, 0, &[0], None, 300_000),
        Ok(vec![piece(0, 4, 200_146)])
    );
}

#[test]
fn leaves_are_not_looked_at_where_no_row_is_selected() {
    let row_groups = [paged(0)];
    let none = [selector(50, true)];
    assert_eq!(selected_leaf_ranges(&row_groups, 0, &[7], Some(&none), 300_000), Ok(vec![]));
    assert!(local_requests(&row_groups, 0, &[7], Some(&none), 300_000).unwrap().is_empty());
    assert!(selected_requests(&row_groups, 0, &[7], Some(&none), 300_000).unwrap().is_empty());
    // Nor behind one that cannot be fetched.
    let all = [selector(50, false)];
    assert_eq!(
        selected_leaf_ranges(&row_groups, 0, &[0, 7], Some(&all), 200_000),
        Err(RangeError::ColumnExceedsFile)
    );
}

#[test]
fn repeated_columns_are_fetched_whole() {
    let row_groups = [paged(1)];
    let last = [selector(45, true), selector(5, false)];
    assert_eq!(
        selected_leaf_ranges(&row_groups, 0, &[0], Some(&last), 300_000),
        Ok(vec![piece(0, 4, 200_146)])
    );
}

#[test]
fn many_page_ranges_become_the_whole_column() {
    let pages: Vec<PageLocation> =
        (0..40).map(|i| page(100 + 100_000 * i, 10, 10 * i)).collect();
    let selection: Vec<RowSelector> =
        (0..40).flat_map(|_| [selector(1, false), selector(9, true)]).collect();
    let mut group = paged(0);
    group.num_rows = 400;
    group.columns[0].dictionary_page_offset = None;
    group.columns[0].compressed_size = 3_900_010;
    group.columns[0].page_locations = Some(pages);
    assert_eq!(MAX_PAGE_RANGES, 32);
    let row_groups = [group];
    assert_eq!(
        selected_leaf_ranges(&row_groups, 0, &[0], Some(&selection), 5_000_000),
        Ok(vec![piece(0, 100, 3_900_010)])
    );
    let few: Vec<RowSelector> = selection[..64].to_vec();
    let pieces = selected_leaf_ranges(&row_groups, 0, &[0], Some(&few), 5_000_000).unwrap();
    assert_eq!(pieces.len(), 32);
    assert_eq!(pieces[31], piece(0, 3_100_100, 10));
}

#[test]
fn impossible_footers_are_refused() {
    let row_groups = [paged(0)];
    let all = [selector(50, false)];
    let error = selected_leaf_ranges(&row_groups, 3, &[], None, 300_000).unwrap_err();
    assert_eq!(error, RangeError::RowGroupOutOfBounds { index: 3, count: 1 });
    assert_eq!(error.message(), "Row group index 3 out of bounds for file with 1 row groups");
    let error = selected_leaf_ranges(&row_groups, 0, &[0], Some(&all), 200_000).unwrap_err();
    assert_eq!(error, RangeError::ColumnExceedsFile);
    assert_eq!(error.message(), "Parquet column byte range exceeds file length");
    let mut overflow = paged(0);
    overflow.num_rows = -1;
    let error = selected_leaf_ranges(&[overflow], 0, &[0], Some(&all), 300_000).unwrap_err();
    assert_eq!(error, RangeError::RowCountOverflow);
    assert_eq!(
        error.message(),
        "Row count overflow: out of range integral type conversion attempted"
    );
    let mut negative = paged(0);
    negative.columns[0].compressed_size = -1;
    let error = selected_leaf_ranges(&[negative], 0, &[0], Some(&all), 300_000).unwrap_err();
    assert_eq!(error, RangeError::InvalidColumnRange);
    assert_eq!(error.message(), "Invalid Parquet column byte range");
    let mut pages = paged(0);
    pages.columns[0].page_locations = Some(vec![page(100, 100, 1)]);
    let some = [selector(49, false), selector(1, true)];
    let error = selected_leaf_ranges(&[pages], 0, &[0], Some(&some), 300_000).unwrap_err();
    assert_eq!(error, RangeError::InvalidPageLocations);
    assert_eq!(error.message(), "Invalid Parquet offset index page locations");
}

fn bounds(groups: &[RangeGroup]) -> Vec<(u64, u64, Vec<usize>)> {
    groups
        .iter()
        .map(|g| (g.start, g.end, g.members.iter().map(|m| m.leaf).collect()))
        .collect()
}

#[test]
fn near_pieces_share_a_request() {
    let pieces = vec![piece(2, 70_000, 10), piece(0, 0, 100), piece(1, 4_000_000, 7)];
    assert_eq!(
        bounds(&coalesce_ranges(pieces.clone(), LOCAL_COALESCE_GAP)),
        vec![(0, 100, vec![0]), (70_000, 70_010, vec![2]), (4_000_000, 4_000_007, vec![1])]
    );
    assert_eq!(
        bounds(&coalesce_and_split_with_gap(pieces, REMOTE_COALESCE_GAP)),
        vec![(0, 70_010, vec![0, 2]), (4_000_000, 4_000_007, vec![1])]
    );
    assert!(coalesce_ranges(vec![], 0).is_empty());
}

#[test]
fn large_requests_are_split_between_pieces() {
    let third = 12_000_000;
    let pieces = vec![piece(0, 0, third), piece(1, third, third), piece(2, 2 * third, third)];
    assert!(3 * third > SPLIT_THRESHOLD && 2 * third > MAX_REQUEST_SIZE);
    let groups = coalesce_and_split_with_gap(pieces, REMOTE_COALESCE_GAP);
    let members: Vec<usize> = groups.iter().flat_map(|g| g.members.iter().map(|m| m.leaf)).collect();
    assert_eq!(members, vec![0, 1, 2]);
    assert!(groups.len() > 1);
    for g in &groups {
        for m in &g.members {
            assert!(g.start <= m.start && m.start + m.len <= g.end);
        }
    }
}

/// Two leaves of one row group, a hundred bytes each.
fn two_leaves() -> RowGroupMeta {
    let column = |start: i64| ColumnChunkMeta {
        dictionary_page_offset: None,
        data_page_offset: start,
        compressed_size: 100,
        max_rep_level: 0,
        page_locations: None,
    };
    RowGroupMeta { num_rows: 10, columns: vec![column(4), column(2_000_000)] }
}

fn file_bytes(start: u64, end: u64) -> Bytes {
    Bytes::from((start..end).map(|i| (i % 251) as u8).collect::<Vec<u8>>())
}

fn fetch(groups: Vec<RangeGroup>) -> Vec<FetchedGroup> {
    groups
        .into_iter()
        .map(|group| FetchedGroup { bytes: file_bytes(group.start, group.end), group })
        .collect()
}

#[test]
fn local_chunks_hold_the_bytes_of_the_file() {
    let row_groups = [two_leaves()];
    let groups = local_requests(&row_groups, 0, &[1, 0], None, 2_000_100).unwrap();
    assert_eq!(bounds(&groups), vec![(4, 104, vec![0]), (2_000_000, 2_000_100, vec![1])]);
    let chunks = read_rg_chunks_sync(&fetch(groups), false, 2_000_100);
    assert_eq!(chunks.len(), 2);
    assert_eq!(chunks[&1].get_bytes(2_000_050, 9).unwrap(), file_bytes(2_000_050, 2_000_059));
    assert_eq!(chunks[&0].get_read(4).unwrap(), file_bytes(4, 104));
    assert!(chunks[&0].get_bytes(2_000_050, 9).is_err());
    assert!(local_requests(&row_groups, 0, &[], None, 2_000_100).unwrap().is_empty());
}

#[test]
fn selected_chunks_hold_the_fetched_pages() {
    let row_groups = [paged(0)];
    let last = [selector(45, true), selector(5, false)];
    for (groups, chunks) in [
        local_requests(&row_groups, 0, &[0], Some(&last), 300_000),
        selected_requests(&row_groups, 0, &[0], Some(&last), 300_000),
    ]
    .into_iter()
    .enumerate()
    .map(|(i, groups)| {
        let groups = groups.unwrap();
        let seen = bounds(&groups);
        let fetched = fetch(groups);
        let chunks = if i == 0 {
            read_rg_chunks_sync(&fetched, true, 300_000)
        } else {
            read_selected_chunks(&fetched, 300_000)
        };
        (seen, chunks)
    }) {
        assert_eq!(groups, vec![(4, 100, vec![0]), (200_100, 200_150, vec![0])]);
        assert_eq!(chunks[&0].get_bytes(4, 96).unwrap(), file_bytes(4, 100));
        assert_eq!(chunks[&0].get_read(200_100).unwrap(), file_bytes(200_100, 200_150));
        assert!(chunks[&0].get_bytes(100_100, 1).is_err());
    }
}

#[test]
fn remote_leaves_wait_for_their_own_requests() {
    let row_groups = [two_leaves()];
    let source = RemoteChunkSource::from_ranged(&row_groups, 2_000_100, &[0, 1], &[0]);
    assert_eq!(source.needed_groups(0, &[1]), Ok(vec![1]));
    assert_eq!(source.needed_groups(0, &[1, 0, 1]), Ok(vec![0, 1]));
    let error = source.needed_groups(0, &[2]).unwrap_err();
    assert_eq!(error, ReadError::NotPrefetched { rg: 0, leaf: 2 });
    assert_eq!(error.message(), "RemoteChunkSource: chunk not pre-fetched for rg=0, leaf=2");
    let error = source.needed_groups(7, &[0]).unwrap_err();
    assert_eq!(error, ReadError::NotStarted { rg: 7 });
    assert_eq!(error.message(), "RemoteChunkSource: no pre-spawned fetch for rg=7");
    assert_eq!(source.needed_groups(7, &[]), Ok(vec![]));
    assert!(source.read_rg_chunks(7, &[], &HashMap::new()).is_empty());
    let group = &source.rgs[&0].groups[1];
    let mut responses = HashMap::new();
    responses.insert(1, file_bytes(group.start, group.end));
    let chunks = source.read_rg_chunks(0, &[1], &responses);
    assert_eq!(chunks.len(), 1);
    assert_eq!(chunks[&1].get_bytes(2_000_000, 100).unwrap(), file_bytes(2_000_000, 2_000_100));
}

#[test]
fn responses_have_the_length_that_was_asked_for() {
    let group = RangeGroup { start: 10, end: 14, members: vec![] };
    assert_eq!(check_response(&group, &Bytes::from_static(b"abcd")), Ok(()));
    let error = check_response(&group, &Bytes::from_static(b"abc")).unwrap_err();
    assert_eq!(error.message(), "Parquet data range response length mismatch");
    assert_eq!(group_len(&group), Ok(4));
    assert_eq!(index_request(3, 8, 8), Ok(5));
    let error = index_request(3, 9, 8).unwrap_err();
    assert_eq!(error.message(), "Parquet index range exceeds file length");
    assert_eq!(index_request(4, 3, 8), Err(ReadError::IndexExceedsFile));
    assert_eq!(check_index_response(5, 5), Ok(()));
    let error = check_index_response(5, 4).unwrap_err();
    assert_eq!(error.message(), "Parquet index range response length mismatch");
    assert_eq!(ReadError::TooLarge.message(), "Parquet read range is too large");
}

#[test]
fn only_needed_columns_are_active() {
    let name = |s: &str| s.to_string();
    let roots = [Some(name("a")), Some(name("b")), Some(name("b")), None, Some(name("c"))];
    assert_eq!(active_columns(None, &[], &roots), vec![0, 1, 2, 3, 4]);
    assert_eq!(active_columns(Some(&[name("b")]), &[name("c")], &roots), vec![1, 2, 4]);
    assert_eq!(sort_and_dedup(vec![3, 1, 3, 2, 1]), vec![1, 2, 3]);
}

#[test]
fn only_ranged_remote_sources_are_lazy() {
    assert_eq!(build(false, true), SourceKind::Local);
    assert_eq!(build(true, true), SourceKind::RemoteDeferred);
    assert_eq!(build(true, false), SourceKind::RemoteRanged);
    assert_eq!(open_rg(SourceKind::RemoteRanged), OpenMode::Lazy);
    assert_eq!(open_rg(SourceKind::Local), OpenMode::Prefetch);
    assert_eq!(open_rg(SourceKind::RemoteDeferred), OpenMode::Prefetch);
}
