//! Reading the column chunks of a row group: which requests to make, and what their
//! responses hold.
use std::collections::HashMap;

use bytes::Bytes;
use vstd::prelude::*;

use crate::chunk_source::{
    coalesce_and_split_with_gap, coalesce_ranges, covers_members, ends_fit, grouped, requests, views,
    RangeGroup, LOCAL_COALESCE_GAP, REMOTE_COALESCE_GAP,
};
use crate::offset_bytes::{bytes_len, bytes_slice, content, Fragment, OffsetBytes};
use crate::page_ranges::{
    leaves_exist, plan_stays_in_file, rows_before, selected_leaf_ranges, selection_plan, ColumnChunkMeta,
    LeafRange, RangeError, RowGroupMeta, RowSelector, PAGE_COALESCE_GAP,
};
use crate::sort::{reversed, sorted};
use crate::text::{decimal, owned, push_decimal};

verus! {

broadcast use vstd::std_specs::hash::group_hash_axioms;

/// A request and its response.
pub struct FetchedGroup {
    pub group: RangeGroup,
    pub bytes: Bytes,
}

/// Some bytes of a leaf column, as a mathematical value.
pub struct Part {
    pub leaf: usize,
    pub offset: u64,
    pub data: Seq<u8>,
}

/// Some bytes of a leaf column.
pub struct LeafPart {
    pub leaf: usize,
    pub fragment: Fragment,
}

impl View for LeafPart {
    type V = Part;

    open spec fn view(&self) -> Part {
        Part { leaf: self.leaf, offset: self.fragment.offset, data: content(self.fragment.bytes) }
    }
}

/// Parts as mathematical values.
pub open spec fn part_views(parts: Seq<LeafPart>) -> Seq<Part> {
    parts.map_values(|p: LeafPart| p@)
}

impl FetchedGroup {
    /// Whether the response has the requested length and the request covers its members.
    pub open spec fn fits(&self) -> bool {
        &&& self.group.start <= self.group.end
        &&& content(self.bytes).len() == self.group.end - self.group.start
        &&& covers_members(self.group@)
    }

    /// The bytes of one member.
    pub open spec fn part(&self, member: LeafRange) -> Part {
        Part {
            leaf: member.leaf,
            offset: member.start,
            data: content(self.bytes).subrange(
                member.start - self.group.start,
                member.start - self.group.start + member.len,
            ),
        }
    }
}

/// The bytes of all members of all requests, in order.
pub open spec fn all_parts(fetched: Seq<FetchedGroup>) -> Seq<Part>
    decreases fetched.len(),
{
    if fetched.len() == 0 {
        Seq::empty()
    } else {
        all_parts(fetched.drop_last()) + fetched.last().group.members@.map_values(
            |m: LeafRange| fetched.last().part(m),
        )
    }
}

/// Cuts the responses into the bytes of their members.
pub fn cut(fetched: &Vec<FetchedGroup>) -> (parts: Vec<LeafPart>)
    requires
        forall|i: int| 0 <= i < fetched@.len() ==> (#[trigger] fetched@[i]).fits(),
    ensures
        part_views(parts@) == all_parts(fetched@),
{
    let mut parts: Vec<LeafPart> = Vec::new();
    let mut i: usize = 0;
    assert(fetched@.take(0) =~= Seq::<FetchedGroup>::empty());
    assert(part_views(parts@) =~= all_parts(fetched@.take(0)));
    while i < fetched.len()
        invariant
            i <= fetched@.len(),
            forall|i: int| 0 <= i < fetched@.len() ==> (#[trigger] fetched@[i]).fits(),
            part_views(parts@) == all_parts(fetched@.take(i as int)),
        decreases fetched@.len() - i,
    {
        let one: &FetchedGroup = &fetched[i];
        let ghost before = part_views(parts@);
        let ghost cut_one = |m: LeafRange| fetched@.take(i + 1).last().part(m);
        proof {
            assert(fetched@.take(i + 1).drop_last() =~= fetched@.take(i as int));
            assert(fetched@.take(i + 1).last() == *one);
            assert(one.fits());
        }
        let mut k: usize = 0;
        assert(part_views(parts@) =~= before + one.group.members@.take(0).map_values(cut_one));
        while k < one.group.members.len()
            invariant
                k <= one.group.members@.len(),
                one.fits(),
                cut_one == (|m: LeafRange| fetched@.take(i + 1).last().part(m)),
                fetched@.take(i + 1).last() == *one,
                part_views(parts@) == before + one.group.members@.take(k as int).map_values(cut_one),
            decreases one.group.members@.len() - k,
        {
            let member: LeafRange = one.group.members[k];
            proof {
                assert(one.group@.members[k as int] == member);
                assert(one.group.start <= member.start && member.end() <= one.group.end);
                assert(content(one.bytes).len() == one.group.end - one.group.start);
            }
            let len: usize = bytes_len(&one.bytes);
            let local: usize = (member.start - one.group.start) as usize;
            let bytes: Bytes = bytes_slice(&one.bytes, local, local + member.len as usize);
            let part = LeafPart { leaf: member.leaf, fragment: Fragment { offset: member.start, bytes } };
            let ghost sofar = parts@;
            let ghost shown = part@;
            parts.push(part);
            proof {
                assert(shown == cut_one(member));
                assert(one.group.members@.take(k + 1) =~= one.group.members@.take(k as int).push(member));
                assert(part_views(parts@) =~= part_views(sofar).push(shown));
                assert(part_views(parts@) =~= before + one.group.members@.take(k + 1).map_values(
                    cut_one,
                ));
            }
            k = k + 1;
        }
        proof {
            assert(one.group.members@.take(one.group.members@.len() as int) =~= one.group.members@);
        }
        i = i + 1;
    }
    assert(fetched@.take(fetched@.len() as int) =~= fetched@);
    parts
}

/// The parts of one leaf, in order.
pub open spec fn parts_of(parts: Seq<Part>, leaf: usize) -> Seq<Part>
    decreases parts.len(),
{
    if parts.len() == 0 {
        Seq::empty()
    } else if parts.last().leaf == leaf {
        parts_of(parts.drop_last(), leaf).push(parts.last())
    } else {
        parts_of(parts.drop_last(), leaf)
    }
}

/// Whether some part belongs to the leaf.
pub open spec fn has_leaf(parts: Seq<Part>, leaf: usize) -> bool {
    parts_of(parts, leaf).len() > 0
}

/// Fragments of a leaf as mathematical values.
pub open spec fn fragment_parts(leaf: usize, fragments: Seq<Fragment>) -> Seq<Part> {
    fragments.map_values(
        |f: Fragment| Part { leaf, offset: f.offset, data: content(f.bytes) },
    )
}

/// Whether `chunks` has, for each leaf with a part, the bytes of its last part.
pub open spec fn are_contiguous_chunks(
    chunks: Map<usize, OffsetBytes>,
    parts: Seq<Part>,
    file_len: u64,
) -> bool {
    &&& forall|leaf: usize| #[trigger] chunks.contains_key(leaf) <==> has_leaf(parts, leaf)
    &&& forall|leaf: usize| #[trigger]
        chunks.contains_key(leaf) ==> {
            let chunk = chunks[leaf];
            let part = parts_of(parts, leaf).last();
            &&& chunk.wf()
            &&& chunk.fragments is None
            &&& chunk.file_len == file_len
            &&& chunk.base == part.offset
            &&& content(chunk.bytes) == part.data
        }
}

/// Whether a column holds all parts of its leaf, sorted by their place.
pub open spec fn holds_parts(chunk: OffsetBytes, leaf: usize, parts: Seq<Part>, file_len: u64) -> bool {
    &&& chunk.wf()
    &&& chunk.file_len == file_len
    &&& chunk.fragments is Some
    &&& exists|fragments: Seq<Fragment>| #[trigger]
        fragment_parts(leaf, fragments) == parts_of(parts, leaf) && chunk.fragments->0@ == sorted(
            fragments,
        )
}

/// Whether `chunks` has, for each leaf with a part, all of its parts sorted by their place.
pub open spec fn are_sparse_chunks(
    chunks: Map<usize, OffsetBytes>,
    parts: Seq<Part>,
    file_len: u64,
) -> bool {
    &&& forall|leaf: usize| #[trigger] chunks.contains_key(leaf) <==> has_leaf(parts, leaf)
    &&& forall|leaf: usize| #[trigger]
        chunks.contains_key(leaf) ==> holds_parts(chunks[leaf], leaf, parts, file_len)
}

proof fn lemma_parts_step(parts: Seq<Part>, n: int, leaf: usize)
    requires
        0 <= n < parts.len(),
    ensures
        parts_of(parts.take(n + 1), leaf) == (if parts[n].leaf == leaf {
            parts_of(parts.take(n), leaf).push(parts[n])
        } else {
            parts_of(parts.take(n), leaf)
        }),
{
    assert(parts.take(n + 1).drop_last() =~= parts.take(n));
    assert(parts.take(n + 1).last() == parts[n]);
}

/// One contiguous piece for each leaf.
pub fn contiguous_chunks(parts: Vec<LeafPart>, file_len: u64) -> (chunks: HashMap<usize, OffsetBytes>)
    ensures
        are_contiguous_chunks(chunks@, part_views(parts@), file_len),
{
    let ghost all = parts@;
    let ghost shown = part_views(all);
    let mut rest: Vec<LeafPart> = reversed(parts);
    let mut chunks: HashMap<usize, OffsetBytes> = HashMap::new();
    assert(shown.take(0) =~= Seq::<Part>::empty());
    while rest.len() > 0
        invariant
            rest@.len() <= all.len(),
            shown == part_views(all),
            forall|i: int| 0 <= i < rest@.len() ==> #[trigger] rest@[i] == all[all.len() - 1 - i],
            are_contiguous_chunks(chunks@, shown.take(all.len() - rest@.len()), file_len),
        decreases rest@.len(),
    {
        let ghost n = all.len() - rest@.len();
        let ghost before = chunks@;
        match rest.pop() {
            Some(part) => {
                let LeafPart { leaf, fragment } = part;
                let chunk = OffsetBytes::contiguous(fragment.offset, file_len, fragment.bytes);
                chunks.insert(leaf, chunk);
                proof {
                    assert(shown[n] == part@);
                    assert forall|l: usize| #[trigger]
                        chunks@.contains_key(l) <==> has_leaf(shown.take(n + 1), l) by {
                        lemma_parts_step(shown, n, l);
                        assert(before.contains_key(l) <==> has_leaf(shown.take(n), l));
                    }
                    assert forall|l: usize| #[trigger] chunks@.contains_key(l) implies {
                        let c = chunks@[l];
                        let p = parts_of(shown.take(n + 1), l).last();
                        &&& c.wf()
                        &&& c.fragments is None
                        &&& c.file_len == file_len
                        &&& c.base == p.offset
                        &&& content(c.bytes) == p.data
                    } by {
                        lemma_parts_step(shown, n, l);
                        if l != leaf {
                            assert(before.contains_key(l));
                        }
                    }
                }
            },
            None => {},
        }
    }
    assert(shown.take(all.len() as int) =~= shown);
    chunks
}

/// Whether `held` has, for each leaf with a part, the fragments of all of its parts.
spec fn gathers(held: Map<usize, Vec<Fragment>>, parts: Seq<Part>) -> bool {
    &&& forall|leaf: usize| #[trigger] held.contains_key(leaf) <==> has_leaf(parts, leaf)
    &&& forall|leaf: usize| #[trigger]
        held.contains_key(leaf) ==> fragment_parts(leaf, held[leaf]@) == parts_of(parts, leaf)
}

/// All pieces of each leaf, sorted by their place.
pub fn sparse_chunks(parts: Vec<LeafPart>, file_len: u64) -> (chunks: HashMap<usize, OffsetBytes>)
    ensures
        are_sparse_chunks(chunks@, part_views(parts@), file_len),
{
    let ghost all = parts@;
    let ghost shown = part_views(all);
    let mut rest: Vec<LeafPart> = reversed(parts);
    let mut held: HashMap<usize, Vec<Fragment>> = HashMap::new();
    let mut leaves: Vec<usize> = Vec::new();
    assert(shown.take(0) =~= Seq::<Part>::empty());
    while rest.len() > 0
        invariant
            rest@.len() <= all.len(),
            shown == part_views(all),
            forall|i: int| 0 <= i < rest@.len() ==> #[trigger] rest@[i] == all[all.len() - 1 - i],
            gathers(held@, shown.take(all.len() - rest@.len())),
            forall|l: usize| #[trigger] leaves@.contains(l) <==> held@.contains_key(l),
        decreases rest@.len(),
    {
        let ghost n = all.len() - rest@.len();
        let ghost before = held@;
        let ghost known = leaves@;
        match rest.pop() {
            Some(part) => {
                let ghost view = part@;
                let LeafPart { leaf, fragment } = part;
                let mut fragments: Vec<Fragment> = match held.remove(&leaf) {
                    Some(fragments) => fragments,
                    None => {
                        leaves.push(leaf);
                        Vec::new()
                    },
                };
                let ghost had = fragments@;
                proof {
                    if !before.contains_key(leaf) {
                        assert(had =~= Seq::<Fragment>::empty());
                        assert(!has_leaf(shown.take(n), leaf));
                        assert(fragment_parts(leaf, had) =~= parts_of(shown.take(n), leaf));
                    }
                }
                fragments.push(fragment);
                let ghost now = fragments@;
                held.insert(leaf, fragments);
                proof {
                    assert(shown[n] == view);
                    assert(fragment_parts(leaf, now) =~= fragment_parts(leaf, had).push(view));
                    assert forall|l: usize| #[trigger]
                        held@.contains_key(l) <==> has_leaf(shown.take(n + 1), l) by {
                        lemma_parts_step(shown, n, l);
                        assert(before.contains_key(l) <==> has_leaf(shown.take(n), l));
                    }
                    assert forall|l: usize| #[trigger] held@.contains_key(l) implies fragment_parts(
                        l,
                        held@[l]@,
                    ) == parts_of(shown.take(n + 1), l) by {
                        lemma_parts_step(shown, n, l);
                        if l != leaf {
                            assert(before.contains_key(l));
                        }
                    }
                    assert forall|l: usize| #[trigger] leaves@.contains(l) <==> held@.contains_key(
                        l,
                    ) by {
                        assert(known.contains(l) <==> before.contains_key(l));
                        if leaves@.len() == known.len() {
                            assert(leaves@ =~= known);
                        } else {
                            assert(leaves@ =~= known.push(leaf));
                            if leaves@.contains(l) && l != leaf {
                                let k = choose|k: int| 0 <= k < leaves@.len() && leaves@[k] == l;
                                assert(known[k] == l);
                            }
                            if known.contains(l) {
                                let k = choose|k: int| 0 <= k < known.len() && known[k] == l;
                                assert(leaves@[k] == l);
                            }
                            assert(leaves@[known.len() as int] == leaf);
                        }
                    }
                }
            },
            None => {},
        }
    }
    assert(shown.take(all.len() as int) =~= shown);
    let ghost gathered = held@;
    let mut chunks: HashMap<usize, OffsetBytes> = HashMap::new();
    let mut i: usize = 0;
    while i < leaves.len()
        invariant
            i <= leaves@.len(),
            gathers(gathered, shown),
            forall|l: usize| #[trigger] leaves@.contains(l) <==> gathered.contains_key(l),
            forall|l: usize| #[trigger]
                held@.contains_key(l) ==> gathered.contains_key(l) && held@[l] == gathered[l],
            forall|l: usize| #[trigger]
                gathered.contains_key(l) ==> held@.contains_key(l) || chunks@.contains_key(l),
            forall|k: int| 0 <= k < i ==> chunks@.contains_key(#[trigger] leaves@[k]),
            forall|l: usize| #[trigger]
                chunks@.contains_key(l) ==> gathered.contains_key(l) && holds_parts(
                    chunks@[l],
                    l,
                    shown,
                    file_len,
                ),
        decreases leaves@.len() - i,
    {
        let leaf: usize = leaves[i];
        assert(leaves@.contains(leaf));
        let ghost before = chunks@;
        match held.remove(&leaf) {
            Some(fragments) => {
                let ghost had = fragments@;
                let chunk = OffsetBytes::from_fragments(file_len, fragments);
                proof {
                    assert(fragment_parts(leaf, had) == parts_of(shown, leaf));
                    assert(holds_parts(chunk, leaf, shown, file_len));
                }
                chunks.insert(leaf, chunk);
            },
            None => {},
        }
        i = i + 1;
    }
    proof {
        assert forall|l: usize| #[trigger] chunks@.contains_key(l) <==> has_leaf(shown, l) by {
            assert(gathered.contains_key(l) <==> has_leaf(shown, l));
            if gathered.contains_key(l) {
                assert(leaves@.contains(l));
                let k = choose|k: int| 0 <= k < leaves@.len() && leaves@[k] == l;
                assert(chunks@.contains_key(leaves@[k]));
            }
        }
    }
    chunks
}

/// The whole chunks of leaves.
pub open spec fn whole_chunks(columns: Seq<ColumnChunkMeta>, leaves: Seq<usize>) -> Seq<LeafRange> {
    leaves.map_values(|leaf: usize| columns[leaf as int].whole(leaf))
}

/// Whether every leaf has a chunk whose place the footer gives, with room for a gap behind it.
pub open spec fn chunks_placed(
    columns: Seq<ColumnChunkMeta>,
    leaves: Seq<usize>,
    max_gap: u64,
) -> bool {
    forall|i: int|
        0 <= i < leaves.len() ==> {
            &&& (#[trigger] leaves[i]) < columns.len()
            &&& columns[leaves[i] as int].range_valid()
            &&& columns[leaves[i] as int].first_offset() + columns[leaves[i] as int].compressed_size
                + max_gap <= u64::MAX
        }
}

/// The whole chunks of leaves.
fn chunk_ranges(columns: &Vec<ColumnChunkMeta>, leaves: &[usize], Ghost(max_gap): Ghost<u64>) -> (out:
    Vec<LeafRange>)
    requires
        chunks_placed(columns@, leaves@, max_gap),
    ensures
        out@ == whole_chunks(columns@, leaves@),
        ends_fit(out@, max_gap),
{
    let mut out: Vec<LeafRange> = Vec::new();
    let mut i: usize = 0;
    while i < leaves.len()
        invariant
            i <= leaves@.len(),
            chunks_placed(columns@, leaves@, max_gap),
            out@.len() == i,
            forall|k: int|
                0 <= k < i ==> #[trigger] out@[k] == whole_chunks(columns@, leaves@)[k] && out@[k].end()
                    + max_gap <= u64::MAX,
        decreases leaves@.len() - i,
    {
        let leaf: usize = leaves[i];
        assert(leaves@[i as int] < columns@.len());
        let (start, len): (u64, u64) = columns[leaf].byte_range();
        out.push(LeafRange { leaf, start, len });
        i = i + 1;
    }
    assert(out@ =~= whole_chunks(columns@, leaves@));
    out
}

/// An optional selection as a mathematical value.
pub open spec fn selection_view(selection: Option<&[RowSelector]>) -> Option<Seq<RowSelector>> {
    match selection {
        Some(s) => Some(s@),
        None => None,
    }
}

/// Whether requests are the ones for a plan.
pub open spec fn are_requests(
    r: Result<Vec<RangeGroup>, RangeError>,
    plan: Result<Seq<LeafRange>, RangeError>,
    split: bool,
    max_gap: u64,
) -> bool {
    match plan {
        Err(e) => r == Err::<Vec<RangeGroup>, RangeError>(e),
        Ok(pieces) => r matches Ok(groups) && views(groups@) == (if split {
            requests(pieces, max_gap)
        } else {
            grouped(sorted(pieces), max_gap)
        }),
    }
}

proof fn lemma_plan_fits(
    row_groups: Seq<RowGroupMeta>,
    rg_idx: usize,
    leaves: Seq<usize>,
    selection: Option<Seq<RowSelector>>,
    file_len: u64,
    max_gap: u64,
)
    requires
        file_len + max_gap <= u64::MAX,
        selection_plan(row_groups, rg_idx, leaves, selection, file_len) is Ok,
    ensures
        ends_fit(selection_plan(row_groups, rg_idx, leaves, selection, file_len)->Ok_0, max_gap),
{
    let pieces = selection_plan(row_groups, rg_idx, leaves, selection, file_len)->Ok_0;
    let rows = row_groups[rg_idx as int].num_rows as usize;
    let selected = match selection {
        Some(s) => crate::page_ranges::selected_before(s, s.len() as int),
        None => rows as nat,
    };
    if selected != 0 {
        plan_stays_in_file(
            row_groups[rg_idx as int].columns@,
            leaves,
            rows,
            if selected < rows { selection } else { None },
            file_len,
        );
        assert forall|i: int| 0 <= i < pieces.len() implies (#[trigger] pieces[i]).end() + max_gap
            <= u64::MAX by {
            assert(crate::page_ranges::within_file(pieces[i], file_len));
        }
    }
}

/// The reads that a row group of a local file needs. Without a selection of rows these are
/// the whole chunks.
pub fn local_requests(
    row_groups: &[RowGroupMeta],
    rg_idx: usize,
    leaves: &[usize],
    selection: Option<&[RowSelector]>,
    file_len: u64,
) -> (r: Result<Vec<RangeGroup>, RangeError>)
    requires
        selection is Some ==> file_len + LOCAL_COALESCE_GAP <= u64::MAX,
        selection matches Some(s) ==> rows_before(s@, s@.len() as int) <= usize::MAX,
        selection is Some ==> leaves_exist(
            row_groups@,
            rg_idx,
            leaves@,
            selection_view(selection),
            file_len,
        ),
        selection is None && leaves@.len() > 0 ==> rg_idx < row_groups@.len() && chunks_placed(
            row_groups@[rg_idx as int].columns@,
            leaves@,
            LOCAL_COALESCE_GAP,
        ),
    ensures
        leaves@.len() == 0 ==> (r matches Ok(groups) && groups@.len() == 0),
        leaves@.len() > 0 ==> are_requests(
            r,
            match selection {
                Some(s) => selection_plan(row_groups@, rg_idx, leaves@, Some(s@), file_len),
                None => Ok(whole_chunks(row_groups@[rg_idx as int].columns@, leaves@)),
            },
            false,
            LOCAL_COALESCE_GAP,
        ),
{
    if leaves.len() == 0 {
        return Ok(Vec::new());
    }
    let pieces: Vec<LeafRange> = match selection {
        Some(_) => {
            match selected_leaf_ranges(row_groups, rg_idx, leaves, selection, file_len) {
                Ok(pieces) => {
                    proof {
                        lemma_plan_fits(
                            row_groups@,
                            rg_idx,
                            leaves@,
                            selection_view(selection),
                            file_len,
                            LOCAL_COALESCE_GAP,
                        );
                    }
                    pieces
                },
                Err(e) => {
                    return Err(e);
                },
            }
        },
        None => chunk_ranges(&row_groups[rg_idx].columns, leaves, Ghost(LOCAL_COALESCE_GAP)),
    };
    Ok(coalesce_ranges(pieces, LOCAL_COALESCE_GAP))
}

/// The chunks of a row group of a local file, out of the reads that `local_requests` asks for.
pub fn read_rg_chunks_sync(
    fetched: &Vec<FetchedGroup>,
    selective: bool,
    file_len: u64,
) -> (chunks: HashMap<usize, OffsetBytes>)
    requires
        forall|i: int| 0 <= i < fetched@.len() ==> (#[trigger] fetched@[i]).fits(),
    ensures
        selective ==> are_sparse_chunks(chunks@, all_parts(fetched@), file_len),
        !selective ==> are_contiguous_chunks(chunks@, all_parts(fetched@), file_len),
{
    let parts: Vec<LeafPart> = cut(fetched);
    if selective {
        sparse_chunks(parts, file_len)
    } else {
        contiguous_chunks(parts, file_len)
    }
}

/// The requests that a deferred read of a row group of a remote file needs. Pages are
/// fetched with smaller gaps than whole chunks.
pub fn selected_requests(
    row_groups: &[RowGroupMeta],
    rg_idx: usize,
    leaves: &[usize],
    selection: Option<&[RowSelector]>,
    file_len: u64,
) -> (r: Result<Vec<RangeGroup>, RangeError>)
    requires
        file_len + REMOTE_COALESCE_GAP <= u64::MAX,
        selection matches Some(s) ==> rows_before(s@, s@.len() as int) <= usize::MAX,
        leaves_exist(row_groups@, rg_idx, leaves@, selection_view(selection), file_len),
    ensures
        are_requests(
            r,
            selection_plan(row_groups@, rg_idx, leaves@, selection_view(selection), file_len),
            true,
            if selection is Some { PAGE_COALESCE_GAP } else { REMOTE_COALESCE_GAP },
        ),
{
    let max_gap: u64 = match selection {
        Some(_) => PAGE_COALESCE_GAP,
        None => REMOTE_COALESCE_GAP,
    };
    match selected_leaf_ranges(row_groups, rg_idx, leaves, selection, file_len) {
        Ok(pieces) => {
            proof {
                lemma_plan_fits(
                    row_groups@,
                    rg_idx,
                    leaves@,
                    selection_view(selection),
                    file_len,
                    max_gap,
                );
            }
            Ok(coalesce_and_split_with_gap(pieces, max_gap))
        },
        Err(e) => Err(e),
    }
}

/// The chunks of a row group of a remote file, out of the responses to the requests that
/// `selected_requests` asks for, in the order in which they arrived.
pub fn read_selected_chunks(fetched: &Vec<FetchedGroup>, file_len: u64) -> (chunks: HashMap<
    usize,
    OffsetBytes,
>)
    requires
        forall|i: int| 0 <= i < fetched@.len() ==> (#[trigger] fetched@[i]).fits(),
    ensures
        are_sparse_chunks(chunks@, all_parts(fetched@), file_len),
{
    sparse_chunks(cut(fetched), file_len)
}

/// Why a row group cannot be read.
#[derive(Clone, Copy, Debug, PartialEq, Eq, Structural)]
pub enum ReadError {
    /// No fetch was started for the row group.
    NotStarted { rg: usize },
    /// No fetch was started for the leaf.
    NotPrefetched { rg: usize, leaf: usize },
    /// A response has another length than was asked for.
    LengthMismatch,
    /// An index lies outside the file.
    IndexExceedsFile,
    /// A response for an index has another length than was asked for.
    IndexLengthMismatch,
    /// A read does not fit in memory.
    TooLarge,
}

impl ReadError {
    /// The text of the error.
    pub open spec fn text(self) -> Seq<char> {
        match self {
            ReadError::NotStarted { rg } => "RemoteChunkSource: no pre-spawned fetch for rg="@
                + decimal(rg as nat),
            ReadError::NotPrefetched { rg, leaf } =>
                "RemoteChunkSource: chunk not pre-fetched for rg="@ + decimal(rg as nat)
                + ", leaf="@ + decimal(leaf as nat),
            ReadError::LengthMismatch => "Parquet data range response length mismatch"@,
            ReadError::IndexExceedsFile => "Parquet index range exceeds file length"@,
            ReadError::IndexLengthMismatch => "Parquet index range response length mismatch"@,
            ReadError::TooLarge => "Parquet read range is too large"@,
        }
    }

    /// The text of the error.
    pub fn message(&self) -> (s: String)
        ensures
            s@ == self.text(),
    {
        match *self {
            ReadError::NotStarted { rg } => {
                let mut s: String = owned("RemoteChunkSource: no pre-spawned fetch for rg=");
                push_decimal(&mut s, rg as u64);
                s
            },
            ReadError::NotPrefetched { rg, leaf } => {
                let mut s: String = owned("RemoteChunkSource: chunk not pre-fetched for rg=");
                push_decimal(&mut s, rg as u64);
                s.append(", leaf=");
                push_decimal(&mut s, leaf as u64);
                s
            },
            ReadError::LengthMismatch => owned("Parquet data range response length mismatch"),
            ReadError::IndexExceedsFile => owned("Parquet index range exceeds file length"),
            ReadError::IndexLengthMismatch => owned("Parquet index range response length mismatch"),
            ReadError::TooLarge => owned("Parquet read range is too large"),
        }
    }
}

/// Whether a response has the length that was asked for.
pub fn check_response(group: &RangeGroup, bytes: &Bytes) -> (r: Result<(), ReadError>)
    requires
        group.start <= group.end,
    ensures
        r is Ok <==> content(*bytes).len() == group.end - group.start,
        r matches Err(e) ==> e == ReadError::LengthMismatch,
{
    if bytes_len(bytes) as u64 == group.end - group.start {
        Ok(())
    } else {
        Err(ReadError::LengthMismatch)
    }
}

/// How many bytes of memory a read needs.
pub fn group_len(group: &RangeGroup) -> (r: Result<usize, ReadError>)
    requires
        group.start <= group.end,
    ensures
        match r {
            Ok(n) => n == group.end - group.start,
            Err(e) => group.end - group.start > usize::MAX && e == ReadError::TooLarge,
        },
{
    let len: u64 = group.end - group.start;
    if len > usize::MAX as u64 {
        Err(ReadError::TooLarge)
    } else {
        Ok(len as usize)
    }
}

/// Whether the bytes of an index can be requested, and how many they are.
pub fn index_request(start: u64, end: u64, file_size: u64) -> (r: Result<u64, ReadError>)
    ensures
        match r {
            Ok(len) => start <= end <= file_size && len == end - start,
            Err(e) => (start > end || end > file_size) && e == ReadError::IndexExceedsFile,
        },
{
    if start > end || end > file_size {
        Err(ReadError::IndexExceedsFile)
    } else {
        Ok(end - start)
    }
}

/// Whether a response for an index has the length that was asked for.
pub fn check_index_response(len: u64, received: u64) -> (r: Result<(), ReadError>)
    ensures
        r is Ok <==> len == received,
        r matches Err(e) ==> e == ReadError::IndexLengthMismatch,
{
    if len == received {
        Ok(())
    } else {
        Err(ReadError::IndexLengthMismatch)
    }
}

/// Every piece of every response is cut out: the part of each member of each request is among
/// all parts.
pub proof fn every_member_is_cut_out(fetched: Seq<FetchedGroup>, g: int, i: int)
    requires
        0 <= g < fetched.len(),
        0 <= i < fetched[g].group.members@.len(),
    ensures
        all_parts(fetched).contains(fetched[g].part(fetched[g].group.members@[i])),
    decreases fetched.len(),
{
    let part = fetched[g].part(fetched[g].group.members@[i]);
    let before = all_parts(fetched.drop_last());
    let all = all_parts(fetched);
    if g < fetched.len() - 1 {
        assert(fetched.drop_last()[g] == fetched[g]);
        every_member_is_cut_out(fetched.drop_last(), g, i);
        let p = choose|p: int| 0 <= p < before.len() && before[p] == part;
        assert(all[p] == part);
    } else {
        assert(all[before.len() + i] == part);
    }
}

/// Nothing else is: every part is that of a member of a request.
pub proof fn only_members_are_cut_out(fetched: Seq<FetchedGroup>, p: int) -> (at: (int, int))
    requires
        0 <= p < all_parts(fetched).len(),
    ensures
        0 <= at.0 < fetched.len(),
        0 <= at.1 < fetched[at.0].group.members@.len(),
        all_parts(fetched)[p] == fetched[at.0].part(fetched[at.0].group.members@[at.1]),
    decreases fetched.len(),
{
    let before = all_parts(fetched.drop_last());
    if p < before.len() {
        let at = only_members_are_cut_out(fetched.drop_last(), p);
        assert(fetched.drop_last()[at.0] == fetched[at.0]);
        at
    } else {
        (fetched.len() - 1, p - before.len())
    }
}

/// The part of a member has the member's leaf and place, and its bytes of the response.
pub proof fn parts_are_cut_at_their_place(fetched: FetchedGroup, member: LeafRange, i: int)
    requires
        fetched.fits(),
        fetched.group.members@.contains(member),
        0 <= i < member.len,
    ensures
        fetched.part(member).leaf == member.leaf,
        fetched.part(member).offset == member.start,
        fetched.part(member).data.len() == member.len,
        fetched.part(member).data[i] == content(fetched.bytes)[member.start + i
            - fetched.group.start],
{
    let members = fetched.group.members@;
    let k = choose|k: int| 0 <= k < members.len() && members[k] == member;
    assert(fetched.group@.members[k] == member);
}

/// The parts of a leaf are all parts with its number, in their order.
pub proof fn parts_go_to_their_leaf(parts: Seq<Part>, leaf: usize)
    ensures
        parts_of(parts, leaf) == parts.filter(|p: Part| p.leaf == leaf),
        has_leaf(parts, leaf) <==> exists|i: int|
            0 <= i < parts.len() && (#[trigger] parts[i]).leaf == leaf,
{
    lemma_parts_filter(parts, leaf, |p: Part| p.leaf == leaf);
    lemma_has_leaf(parts, leaf);
}

proof fn lemma_parts_filter(parts: Seq<Part>, leaf: usize, here: spec_fn(Part) -> bool)
    requires
        forall|p: Part| #[trigger] here(p) == (p.leaf == leaf),
    ensures
        parts_of(parts, leaf) == parts.filter(here),
    decreases parts.len(),
{
    reveal(Seq::filter);
    if parts.len() > 0 {
        lemma_parts_filter(parts.drop_last(), leaf, here);
    }
}

proof fn lemma_has_leaf(parts: Seq<Part>, leaf: usize)
    ensures
        has_leaf(parts, leaf) <==> exists|i: int|
            0 <= i < parts.len() && (#[trigger] parts[i]).leaf == leaf,
    decreases parts.len(),
{
    if parts.len() > 0 {
        let before = parts.drop_last();
        lemma_has_leaf(before, leaf);
        if parts.last().leaf == leaf {
            assert(parts[parts.len() - 1].leaf == leaf);
        } else if has_leaf(before, leaf) {
            let i = choose|i: int| 0 <= i < before.len() && (#[trigger] before[i]).leaf == leaf;
            assert(parts[i].leaf == leaf);
        } else if exists|i: int| 0 <= i < parts.len() && (#[trigger] parts[i]).leaf == leaf {
            let i = choose|i: int| 0 <= i < parts.len() && (#[trigger] parts[i]).leaf == leaf;
            assert(before[i].leaf == leaf);
        }
    }
}

proof fn lemma_part_listed(parts: Seq<Part>, leaf: usize, k: int)
    requires
        0 <= k < parts.len(),
        parts[k].leaf == leaf,
    ensures
        parts_of(parts, leaf).contains(parts[k]),
    decreases parts.len(),
{
    let before = parts_of(parts.drop_last(), leaf);
    let all = parts_of(parts, leaf);
    if k < parts.len() - 1 {
        assert(parts.drop_last()[k] == parts[k]);
        lemma_part_listed(parts.drop_last(), leaf, k);
        let p = choose|p: int| 0 <= p < before.len() && before[p] == parts[k];
        assert(all[p] == parts[k]);
    } else {
        assert(all[before.len() as int] == parts[k]);
    }
}

/// No part gets lost on the way to its column: whatever order the parts came in, the column of a
/// part's leaf has a fragment with its place and its bytes.
pub proof fn columns_hold_all_their_parts(
    chunks: Map<usize, OffsetBytes>,
    parts: Seq<Part>,
    file_len: u64,
    k: int,
) -> (f: int)
    requires
        are_sparse_chunks(chunks, parts, file_len),
        0 <= k < parts.len(),
    ensures
        chunks.contains_key(parts[k].leaf),
        chunks[parts[k].leaf].wf(),
        chunks[parts[k].leaf].fragments is Some,
        chunks[parts[k].leaf].file_len == file_len,
        0 <= f < chunks[parts[k].leaf].fragments->0@.len(),
        chunks[parts[k].leaf].fragments->0@[f].offset == parts[k].offset,
        content(chunks[parts[k].leaf].fragments->0@[f].bytes) == parts[k].data,
{
    let leaf = parts[k].leaf;
    lemma_part_listed(parts, leaf, k);
    assert(has_leaf(parts, leaf));
    assert(chunks.contains_key(leaf));
    let fragments = choose|fragments: Seq<Fragment>| #[trigger]
        fragment_parts(leaf, fragments) == parts_of(parts, leaf) && chunks[leaf].fragments->0@
            == sorted(fragments);
    let p = choose|p: int|
        0 <= p < parts_of(parts, leaf).len() && parts_of(parts, leaf)[p] == parts[k];
    assert(fragment_parts(leaf, fragments)[p] == parts[k]);
    crate::sort::sorted_contains(fragments);
    assert(fragments.contains(fragments[p]));
    let held = sorted(fragments);
    assert(held.contains(fragments[p]));
    choose|f: int| 0 <= f < held.len() && held[f] == fragments[p]
}

/// No column holds anything but parts of its leaf, and no leaf without a part has a column.
pub proof fn columns_hold_nothing_else(
    chunks: Map<usize, OffsetBytes>,
    parts: Seq<Part>,
    file_len: u64,
    leaf: usize,
    f: int,
) -> (k: int)
    requires
        are_sparse_chunks(chunks, parts, file_len),
        chunks.contains_key(leaf),
        0 <= f < chunks[leaf].fragments->0@.len(),
    ensures
        0 <= k < parts.len(),
        parts[k].leaf == leaf,
        parts[k].offset == chunks[leaf].fragments->0@[f].offset,
        parts[k].data == content(chunks[leaf].fragments->0@[f].bytes),
{
    assert(holds_parts(chunks[leaf], leaf, parts, file_len));
    let fragments = choose|fragments: Seq<Fragment>| #[trigger]
        fragment_parts(leaf, fragments) == parts_of(parts, leaf) && chunks[leaf].fragments->0@
            == sorted(fragments);
    crate::sort::sorted_contains(fragments);
    let held = sorted(fragments);
    assert(held.contains(held[f]));
    let p = choose|p: int| 0 <= p < fragments.len() && fragments[p] == held[f];
    let own = parts_of(parts, leaf);
    assert(fragment_parts(leaf, fragments)[p] == own[p]);
    assert(fragment_parts(leaf, fragments).len() == fragments.len());
    lemma_listed_part(parts, leaf, p)
}

proof fn lemma_listed_part(parts: Seq<Part>, leaf: usize, p: int) -> (k: int)
    requires
        0 <= p < parts_of(parts, leaf).len(),
    ensures
        0 <= k < parts.len(),
        parts[k].leaf == leaf,
        parts[k] == parts_of(parts, leaf)[p],
    decreases parts.len(),
{
    let before = parts_of(parts.drop_last(), leaf);
    if p < before.len() {
        let k = lemma_listed_part(parts.drop_last(), leaf, p);
        assert(parts.drop_last()[k] == parts[k]);
        k
    } else {
        parts.len() - 1
    }
}

/// In contiguous reads, each leaf has the bytes of its last part, at that part's place.
pub proof fn contiguous_columns_hold_their_last_part(
    chunks: Map<usize, OffsetBytes>,
    parts: Seq<Part>,
    file_len: u64,
    k: int,
)
    requires
        are_contiguous_chunks(chunks, parts, file_len),
        0 <= k < parts.len(),
        forall|j: int| k < j < parts.len() ==> (#[trigger] parts[j]).leaf != parts[k].leaf,
    ensures
        chunks.contains_key(parts[k].leaf),
        chunks[parts[k].leaf].wf(),
        chunks[parts[k].leaf].fragments is None,
        chunks[parts[k].leaf].file_len == file_len,
        chunks[parts[k].leaf].base == parts[k].offset,
        content(chunks[parts[k].leaf].bytes) == parts[k].data,
{
    lemma_last_part(parts, k);
    assert(has_leaf(parts, parts[k].leaf));
    assert(chunks.contains_key(parts[k].leaf));
}

proof fn lemma_last_part(parts: Seq<Part>, k: int)
    requires
        0 <= k < parts.len(),
        forall|j: int| k < j < parts.len() ==> (#[trigger] parts[j]).leaf != parts[k].leaf,
    ensures
        parts_of(parts, parts[k].leaf).len() > 0,
        parts_of(parts, parts[k].leaf).last() == parts[k],
    decreases parts.len(),
{
    if k < parts.len() - 1 {
        let before = parts.drop_last();
        assert(before[k] == parts[k]);
        assert(parts[parts.len() - 1].leaf != parts[k].leaf);
        assert forall|j: int| k < j < before.len() implies (#[trigger] before[j]).leaf
            != before[k].leaf by {
            assert(before[j] == parts[j]);
        }
        lemma_last_part(before, k);
    }
}

/// Without a selection of rows, each leaf is read from the begin of its chunk over all its bytes.
pub proof fn whole_chunks_are_whole(columns: Seq<ColumnChunkMeta>, leaves: Seq<usize>, i: int)
    requires
        0 <= i < leaves.len(),
        columns[leaves[i] as int].range_valid(),
    ensures
        ({
            let column = columns[leaves[i] as int];
            let piece = whole_chunks(columns, leaves)[i];
            &&& whole_chunks(columns, leaves).len() == leaves.len()
            &&& piece.leaf == leaves[i]
            &&& column.dictionary_page_offset matches Some(offset) ==> piece.start == offset
            &&& column.dictionary_page_offset is None ==> piece.start == column.data_page_offset
            &&& piece.len == column.compressed_size
        }),
{
}

/// Every planned piece is asked for: it is a member of one of the requests. A plan that fails is
/// asked for nothing, and its error is what is told.
pub proof fn every_planned_piece_is_requested(
    r: Result<Vec<RangeGroup>, RangeError>,
    plan: Result<Seq<LeafRange>, RangeError>,
    split: bool,
    max_gap: u64,
    k: int,
) -> (at: (int, int))
    requires
        are_requests(r, plan, split, max_gap),
        plan matches Ok(pieces) ==> ends_fit(pieces, max_gap),
    ensures
        plan is Err ==> r is Err && r->Err_0 == plan->Err_0,
        plan is Ok ==> r is Ok,
        plan is Ok && 0 <= k < plan->Ok_0.len() ==> {
            &&& 0 <= at.0 < r->Ok_0@.len()
            &&& 0 <= at.1 < r->Ok_0@[at.0].members@.len()
            &&& r->Ok_0@[at.0].members@[at.1] == plan->Ok_0[k]
        },
{
    if plan is Ok && 0 <= k < plan->Ok_0.len() {
        let pieces = plan->Ok_0;
        let groups = views(r->Ok_0@);
        crate::chunk_source::requests_keep_pieces(pieces, max_gap);
        crate::chunk_source::splitting_keeps_pieces(grouped(sorted(pieces), max_gap));
        crate::sort::sorted_contains(pieces);
        let all = crate::chunk_source::all_members(groups);
        assert(all == sorted(pieces));
        assert(pieces.contains(pieces[k]));
        assert(all.contains(pieces[k]));
        let p = choose|p: int| 0 <= p < all.len() && all[p] == pieces[k];
        let at = crate::chunk_source::listed_members_are_in_a_group(groups, p);
        assert(groups[at.0] == r->Ok_0@[at.0]@);
        at
    } else {
        (0, 0)
    }
}

} // verus!
