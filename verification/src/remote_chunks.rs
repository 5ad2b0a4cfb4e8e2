//! Column chunks of a remote file whose requests are made ahead of the reads.
use std::collections::HashMap;

use bytes::Bytes;
use vstd::prelude::*;

use crate::chunk_reader::{chunks_placed, whole_chunks, FetchedGroup, ReadError};
use crate::chunk_source::{
    coalesce_and_split_with_gap, requests, views, Group, RangeGroup, REMOTE_COALESCE_GAP,
};
use crate::io_error::{IoError, IoErrorKind};
use crate::offset_bytes::{bytes_slice, content, OffsetBytes};
use crate::page_ranges::{ColumnChunkMeta, LeafRange, RowGroupMeta};
use crate::sort::{is_sorted, sort, sorted_contains, sorted_is_sorted, Keyed};

verus! {

broadcast use vstd::std_specs::hash::group_hash_axioms;

/// Where the bytes of a leaf are: in which request, and at which place of the file.
#[derive(Clone, Copy, Debug, PartialEq, Eq, Structural)]
pub struct LeafLoc {
    pub group_idx: usize,
    pub leaf_start: u64,
    pub leaf_len: u64,
}

/// The requests of one row group, and where each leaf is in them.
pub struct RgState {
    pub groups: Vec<RangeGroup>,
    pub leaves: HashMap<usize, LeafLoc>,
}

/// The requests of a remote file.
pub struct RemoteChunkSource {
    pub rgs: HashMap<usize, RgState>,
    pub file_len: u64,
}

/// `locs` with the members of request `group_idx` added.
pub open spec fn add_members(
    locs: Map<usize, LeafLoc>,
    group_idx: usize,
    members: Seq<LeafRange>,
) -> Map<usize, LeafLoc>
    decreases members.len(),
{
    if members.len() == 0 {
        locs
    } else {
        let m = members.last();
        add_members(locs, group_idx, members.drop_last()).insert(
            m.leaf,
            LeafLoc { group_idx, leaf_start: m.start, leaf_len: m.len },
        )
    }
}

/// Where each leaf is in requests.
pub open spec fn locations(groups: Seq<Group>) -> Map<usize, LeafLoc>
    decreases groups.len(),
{
    if groups.len() == 0 {
        Map::empty()
    } else {
        add_members(
            locations(groups.drop_last()),
            (groups.len() - 1) as usize,
            groups.last().members,
        )
    }
}

/// Whether a leaf is where its location says.
pub open spec fn loc_valid(groups: Seq<Group>, leaf: usize, loc: LeafLoc) -> bool {
    &&& loc.group_idx < groups.len()
    &&& groups[loc.group_idx as int].members.contains(
        LeafRange { leaf, start: loc.leaf_start, len: loc.leaf_len },
    )
}

proof fn lemma_add_members(
    groups: Seq<Group>,
    locs: Map<usize, LeafLoc>,
    group_idx: usize,
    members: Seq<LeafRange>,
)
    requires
        group_idx < groups.len(),
        forall|l: usize| #[trigger] locs.contains_key(l) ==> loc_valid(groups, l, locs[l]),
        forall|m: LeafRange| #[trigger]
            members.contains(m) ==> groups[group_idx as int].members.contains(m),
    ensures
        forall|l: usize| #[trigger]
            add_members(locs, group_idx, members).contains_key(l) ==> loc_valid(
                groups,
                l,
                add_members(locs, group_idx, members)[l],
            ),
        forall|l: usize| #[trigger]
            add_members(locs, group_idx, members).contains_key(l) <==> locs.contains_key(l) || exists|
                i: int,
            |
                0 <= i < members.len() && (#[trigger] members[i]).leaf == l,
    decreases members.len(),
{
    if members.len() > 0 {
        let before = members.drop_last();
        assert forall|m: LeafRange| #[trigger] before.contains(m) implies groups[group_idx as int].members.contains(
            m,
        ) by {
            let k = choose|k: int| 0 <= k < before.len() && before[k] == m;
            assert(members[k] == m);
            assert(members.contains(m));
        }
        lemma_add_members(groups, locs, group_idx, before);
        let m = members.last();
        assert(members[members.len() - 1] == m);
        assert(members.contains(m));
        let r = add_members(locs, group_idx, members);
        let b = add_members(locs, group_idx, before);
        assert(m == LeafRange { leaf: m.leaf, start: m.start, len: m.len });
        assert forall|l: usize| #[trigger] r.contains_key(l) <==> locs.contains_key(l) || exists|
            i: int,
        |
            0 <= i < members.len() && (#[trigger] members[i]).leaf == l by {
            if b.contains_key(l) && !locs.contains_key(l) {
                let i = choose|i: int| 0 <= i < before.len() && (#[trigger] before[i]).leaf == l;
                assert(members[i].leaf == l);
            }
            if exists|i: int| 0 <= i < members.len() && (#[trigger] members[i]).leaf == l {
                let i = choose|i: int| 0 <= i < members.len() && (#[trigger] members[i]).leaf == l;
                if i < before.len() {
                    assert(before[i].leaf == l);
                    assert(b.contains_key(l));
                }
            }
        }
    }
}

/// Every location points to a member of a request, and every member's leaf has a location.
pub proof fn locations_point_to_members(groups: Seq<Group>)
    requires
        groups.len() <= usize::MAX,
    ensures
        forall|l: usize| #[trigger]
            locations(groups).contains_key(l) ==> loc_valid(groups, l, locations(groups)[l]),
        forall|k: int, i: int|
            #![trigger groups[k].members[i]]
            0 <= k < groups.len() && 0 <= i < groups[k].members.len() ==> locations(
                groups,
            ).contains_key(groups[k].members[i].leaf),
    decreases groups.len(),
{
    if groups.len() > 0 {
        let before = groups.drop_last();
        locations_point_to_members(before);
        let b = locations(before);
        assert forall|l: usize| #[trigger] b.contains_key(l) implies loc_valid(groups, l, b[l]) by {
            assert(loc_valid(before, l, b[l]));
            assert(groups[b[l].group_idx as int] == before[b[l].group_idx as int]);
        }
        let last = (groups.len() - 1) as usize;
        lemma_add_members(groups, b, last, groups.last().members);
        assert forall|k: int, i: int|
            #![trigger groups[k].members[i]]
            0 <= k < groups.len() && 0 <= i < groups[k].members.len() implies locations(
            groups,
        ).contains_key(groups[k].members[i].leaf) by {
            if k < before.len() {
                assert(before[k] == groups[k]);
                assert(b.contains_key(before[k].members[i].leaf));
            } else {
                assert(groups.last().members[i].leaf == groups[k].members[i].leaf);
            }
        }
    }
}

/// Where each leaf is in requests.
fn locate(groups: &Vec<RangeGroup>) -> (locs: HashMap<usize, LeafLoc>)
    ensures
        locs@ == locations(views(groups@)),
{
    let mut locs: HashMap<usize, LeafLoc> = HashMap::new();
    let mut k: usize = 0;
    let ghost shown = views(groups@);
    assert(shown.take(0) =~= Seq::<Group>::empty());
    while k < groups.len()
        invariant
            k <= groups@.len(),
            shown == views(groups@),
            locs@ == locations(shown.take(k as int)),
        decreases groups@.len() - k,
    {
        let ghost before = locs@;
        let members: &Vec<LeafRange> = &groups[k].members;
        let mut i: usize = 0;
        assert(members@.take(0) =~= Seq::<LeafRange>::empty());
        while i < members.len()
            invariant
                i <= members@.len(),
                locs@ == add_members(before, k, members@.take(i as int)),
            decreases members@.len() - i,
        {
            let m: LeafRange = members[i];
            proof {
                assert(members@.take(i + 1).drop_last() =~= members@.take(i as int));
                assert(members@.take(i + 1).last() == m);
            }
            locs.insert(m.leaf, LeafLoc { group_idx: k, leaf_start: m.start, leaf_len: m.len });
            i = i + 1;
        }
        proof {
            assert(members@.take(members@.len() as int) =~= members@);
            assert(shown.take(k + 1).drop_last() =~= shown.take(k as int));
            assert(shown.take(k + 1).last() == groups@[k as int]@);
        }
        k = k + 1;
    }
    assert(shown.take(groups@.len() as int) =~= shown);
    locs
}

impl RgState {
    /// Whether this has the requests for the whole chunks of `leaves`.
    pub open spec fn fetches(&self, columns: Seq<ColumnChunkMeta>, leaves: Seq<usize>) -> bool {
        &&& views(self.groups@) == requests(whole_chunks(columns, leaves), REMOTE_COALESCE_GAP)
        &&& self.leaves@ == locations(views(self.groups@))
    }
}

impl RemoteChunkSource {
    /// The requests for the whole chunks of the active columns in the active row groups.
    pub fn from_ranged(
        row_groups: &[RowGroupMeta],
        file_len: u64,
        active_columns: &[usize],
        active_row_groups: &[usize],
    ) -> (s: RemoteChunkSource)
        requires
            forall|i: int|
                0 <= i < active_row_groups@.len() ==> {
                    &&& (#[trigger] active_row_groups@[i]) < row_groups@.len()
                    &&& chunks_placed(
                        row_groups@[active_row_groups@[i] as int].columns@,
                        active_columns@,
                        REMOTE_COALESCE_GAP,
                    )
                },
        ensures
            s.file_len == file_len,
            forall|rg: usize| #[trigger]
                s.rgs@.contains_key(rg) <==> active_row_groups@.contains(rg),
            forall|rg: usize| #[trigger]
                s.rgs@.contains_key(rg) ==> s.rgs@[rg].fetches(
                    row_groups@[rg as int].columns@,
                    active_columns@,
                ),
    {
        let mut rgs: HashMap<usize, RgState> = HashMap::new();
        let mut i: usize = 0;
        while i < active_row_groups.len()
            invariant
                i <= active_row_groups@.len(),
                forall|i: int|
                    0 <= i < active_row_groups@.len() ==> {
                        &&& (#[trigger] active_row_groups@[i]) < row_groups@.len()
                        &&& chunks_placed(
                            row_groups@[active_row_groups@[i] as int].columns@,
                            active_columns@,
                            REMOTE_COALESCE_GAP,
                        )
                    },
                forall|rg: usize| #[trigger]
                    rgs@.contains_key(rg) <==> active_row_groups@.take(i as int).contains(rg),
                forall|rg: usize| #[trigger]
                    rgs@.contains_key(rg) ==> rgs@[rg].fetches(
                        row_groups@[rg as int].columns@,
                        active_columns@,
                    ),
            decreases active_row_groups@.len() - i,
        {
            let rg_idx: usize = active_row_groups[i];
            assert(active_row_groups@[i as int] < row_groups@.len());
            let columns: &Vec<ColumnChunkMeta> = &row_groups[rg_idx].columns;
            let mut pieces: Vec<LeafRange> = Vec::new();
            let mut k: usize = 0;
            while k < active_columns.len()
                invariant
                    k <= active_columns@.len(),
                    chunks_placed(columns@, active_columns@, REMOTE_COALESCE_GAP),
                    pieces@.len() == k,
                    forall|j: int|
                        0 <= j < k ==> #[trigger] pieces@[j] == whole_chunks(
                            columns@,
                            active_columns@,
                        )[j] && pieces@[j].end() + REMOTE_COALESCE_GAP <= u64::MAX,
                decreases active_columns@.len() - k,
            {
                let leaf: usize = active_columns[k];
                assert(active_columns@[k as int] < columns@.len());
                let (start, len): (u64, u64) = columns[leaf].byte_range();
                pieces.push(LeafRange { leaf, start, len });
                k = k + 1;
            }
            assert(pieces@ =~= whole_chunks(columns@, active_columns@));
            let groups: Vec<RangeGroup> = coalesce_and_split_with_gap(pieces, REMOTE_COALESCE_GAP);
            let leaves: HashMap<usize, LeafLoc> = locate(&groups);
            let ghost before = rgs@;
            rgs.insert(rg_idx, RgState { groups, leaves });
            proof {
                let now = active_row_groups@.take(i + 1);
                let was = active_row_groups@.take(i as int);
                assert(now =~= was.push(rg_idx));
                assert forall|rg: usize| #[trigger] rgs@.contains_key(rg) <==> now.contains(rg) by {
                    assert(before.contains_key(rg) <==> was.contains(rg));
                    if was.contains(rg) {
                        let j = choose|j: int| 0 <= j < was.len() && was[j] == rg;
                        assert(now[j] == rg);
                    }
                    if now.contains(rg) && rg != rg_idx {
                        let j = choose|j: int| 0 <= j < now.len() && now[j] == rg;
                        assert(was[j] == rg);
                    }
                    assert(now[i as int] == rg_idx);
                }
            }
            i = i + 1;
        }
        assert(active_row_groups@.take(active_row_groups@.len() as int) =~= active_row_groups@);
        RemoteChunkSource { rgs, file_len }
    }
}

impl Keyed for usize {
    open spec fn spec_key(&self) -> int {
        *self as int
    }

    fn not_after(&self, other: &Self) -> (b: bool) {
        *self <= *other
    }
}

/// Whether numbers ascend without repetition.
pub open spec fn strictly_ascending(s: Seq<usize>) -> bool {
    forall|i: int, j: int| #![trigger s[i], s[j]] 0 <= i < j < s.len() ==> s[i] < s[j]
}

/// Sorts numbers and drops repetitions.
pub fn sort_and_dedup(items: Vec<usize>) -> (out: Vec<usize>)
    ensures
        strictly_ascending(out@),
        forall|x: usize| #[trigger] out@.contains(x) <==> items@.contains(x),
{
    let ghost input = items@;
    let all: Vec<usize> = sort(items);
    proof {
        sorted_is_sorted(input);
        sorted_contains(input);
    }
    let mut out: Vec<usize> = Vec::new();
    let mut i: usize = 0;
    while i < all.len()
        invariant
            i <= all@.len(),
            is_sorted(all@),
            strictly_ascending(out@),
            i > 0 ==> out@.len() > 0 && out@.last() == all@[i - 1],
            i == 0 ==> out@.len() == 0,
            forall|x: usize| #[trigger] out@.contains(x) <==> all@.take(i as int).contains(x),
        decreases all@.len() - i,
    {
        let x: usize = all[i];
        let ghost before = out@;
        let n: usize = out.len();
        let known: bool = n > 0 && out[n - 1] == x;
        if !known {
            proof {
                if i > 0 {
                    assert(all@[i - 1].spec_key() <= all@[i as int].spec_key());
                }
            }
            out.push(x);
            proof {
                assert forall|a: int, b: int| #![trigger out@[a], out@[b]]
                    0 <= a < b < out@.len() implies out@[a] < out@[b] by {
                    if b == n {
                        if a < n - 1 {
                            assert(before[a] < before[n - 1]);
                        }
                        assert(before[n - 1] == before.last());
                    }
                }
            }
        }
        proof {
            let was = all@.take(i as int);
            let now = all@.take(i + 1);
            assert(now =~= was.push(x));
            assert forall|y: usize| #[trigger] out@.contains(y) <==> now.contains(y) by {
                assert(before.contains(y) <==> was.contains(y));
                if known {
                    assert(out@ =~= before);
                    assert(before[n - 1] == x);
                } else {
                    assert(out@ =~= before.push(x));
                    assert(out@[n as int] == x);
                }
                assert(now[i as int] == x);
                if out@.contains(y) && y != x {
                    let k = choose|k: int| 0 <= k < out@.len() && out@[k] == y;
                    assert(before[k] == y);
                    let j = choose|j: int| 0 <= j < was.len() && was[j] == y;
                    assert(now[j] == y);
                }
                if now.contains(y) && y != x {
                    let j = choose|j: int| 0 <= j < now.len() && now[j] == y;
                    assert(was[j] == y);
                    let k = choose|k: int| 0 <= k < before.len() && before[k] == y;
                    assert(out@[k] == y);
                }
            }
        }
        i = i + 1;
    }
    assert(all@.take(all@.len() as int) =~= all@);
    out
}

impl RemoteChunkSource {
    /// The first of `leaves` that has no location, if there is one.
    pub open spec fn missing(&self, rg_idx: usize, leaves: Seq<usize>) -> Option<usize>
        decreases leaves.len(),
    {
        if leaves.len() == 0 {
            None
        } else {
            match self.missing(rg_idx, leaves.drop_last()) {
                Some(leaf) => Some(leaf),
                None => if self.rgs@[rg_idx].leaves@.contains_key(leaves.last()) {
                    None
                } else {
                    Some(leaves.last())
                },
            }
        }
    }

    /// The requests that hold `leaves`, each once, in ascending order. Other requests of the
    /// row group are not waited for, and without leaves none is looked at.
    pub fn needed_groups(&self, rg_idx: usize, leaves: &[usize]) -> (r: Result<Vec<usize>, ReadError>)
        ensures
            leaves@.len() == 0 ==> (r matches Ok(groups) && groups@.len() == 0),
            leaves@.len() > 0 && !self.rgs@.contains_key(rg_idx) ==> r == Err::<Vec<usize>, ReadError>(
                ReadError::NotStarted { rg: rg_idx },
            ),
            self.rgs@.contains_key(rg_idx) ==> match self.missing(rg_idx, leaves@) {
                Some(leaf) => r == Err::<Vec<usize>, ReadError>(
                    ReadError::NotPrefetched { rg: rg_idx, leaf },
                ),
                None => {
                    &&& r is Ok
                    &&& strictly_ascending(r->Ok_0@)
                    &&& forall|g: usize| #[trigger]
                        r->Ok_0@.contains(g) <==> exists|i: int|
                            0 <= i < leaves@.len() && self.rgs@[rg_idx].leaves@[#[trigger] leaves@[i]].group_idx
                                == g
                },
            },
            self.rgs@.contains_key(rg_idx) && self.missing(rg_idx, leaves@) is None ==> forall|i: int|
                0 <= i < leaves@.len() ==> self.rgs@[rg_idx].leaves@.contains_key(
                    #[trigger] leaves@[i],
                ),
    {
        if leaves.len() == 0 {
            return Ok(Vec::new());
        }
        let rg: &RgState = match self.rgs.get(&rg_idx) {
            Some(rg) => rg,
            None => {
                return Err(ReadError::NotStarted { rg: rg_idx });
            },
        };
        let mut needed: Vec<usize> = Vec::new();
        let mut i: usize = 0;
        assert(leaves@.take(0) =~= Seq::<usize>::empty());
        while i < leaves.len()
            invariant
                i <= leaves@.len(),
                self.rgs@.contains_key(rg_idx),
                rg == self.rgs@[rg_idx],
                self.missing(rg_idx, leaves@.take(i as int)) is None,
                forall|k: int| 0 <= k < i ==> rg.leaves@.contains_key(#[trigger] leaves@[k]),
                needed@.len() == i,
                forall|k: int| 0 <= k < i ==> #[trigger] needed@[k] == rg.leaves@[leaves@[k]].group_idx,
            decreases leaves@.len() - i,
        {
            let leaf: usize = leaves[i];
            proof {
                assert(leaves@.take(i + 1).drop_last() =~= leaves@.take(i as int));
                assert(leaves@.take(i + 1).last() == leaf);
            }
            match rg.leaves.get(&leaf) {
                Some(loc) => {
                    needed.push(loc.group_idx);
                },
                None => {
                    proof {
                        self.lemma_missing_stays(rg_idx, leaves@, i + 1, leaf);
                    }
                    return Err(ReadError::NotPrefetched { rg: rg_idx, leaf });
                },
            }
            i = i + 1;
        }
        assert(leaves@.take(leaves@.len() as int) =~= leaves@);
        let ghost all = needed@;
        let out: Vec<usize> = sort_and_dedup(needed);
        proof {
            assert forall|g: usize| #[trigger] out@.contains(g) <==> exists|i: int|
                0 <= i < leaves@.len() && rg.leaves@[#[trigger] leaves@[i]].group_idx == g by {
                if all.contains(g) {
                    let k = choose|k: int| 0 <= k < all.len() && all[k] == g;
                    assert(rg.leaves@[leaves@[k]].group_idx == g);
                }
                if exists|i: int|
                    0 <= i < leaves@.len() && rg.leaves@[#[trigger] leaves@[i]].group_idx == g {
                    let i = choose|i: int|
                        0 <= i < leaves@.len() && rg.leaves@[#[trigger] leaves@[i]].group_idx == g;
                    assert(all[i] == g);
                }
            }
        }
        Ok(out)
    }

    proof fn lemma_missing_stays(&self, rg_idx: usize, leaves: Seq<usize>, n: int, leaf: usize)
        requires
            0 <= n <= leaves.len(),
            self.missing(rg_idx, leaves.take(n)) == Some(leaf),
        ensures
            self.missing(rg_idx, leaves) == Some(leaf),
        decreases leaves.len() - n,
    {
        if n == leaves.len() {
            assert(leaves.take(n) =~= leaves);
        } else {
            assert(leaves.take(n + 1).drop_last() =~= leaves.take(n));
            self.lemma_missing_stays(rg_idx, leaves, n + 1, leaf);
        }
    }

    /// Whether the response that holds a leaf is there and reaches over it.
    pub open spec fn leaf_fetched(
        &self,
        rg_idx: usize,
        leaf: usize,
        responses: Map<usize, Bytes>,
    ) -> bool {
        let rg = self.rgs@[rg_idx];
        let loc = rg.leaves@[leaf];
        &&& rg.leaves@.contains_key(leaf)
        &&& loc.group_idx < rg.groups@.len()
        &&& responses.contains_key(loc.group_idx)
        &&& rg.groups@[loc.group_idx as int].start <= loc.leaf_start
        &&& loc.leaf_start - rg.groups@[loc.group_idx as int].start + loc.leaf_len <= content(
            responses[loc.group_idx],
        ).len()
    }

    /// The bytes of a leaf.
    pub open spec fn leaf_bytes(
        &self,
        rg_idx: usize,
        leaf: usize,
        responses: Map<usize, Bytes>,
    ) -> Seq<u8> {
        let rg = self.rgs@[rg_idx];
        let loc = rg.leaves@[leaf];
        let from = loc.leaf_start - rg.groups@[loc.group_idx as int].start;
        content(responses[loc.group_idx]).subrange(from, from + loc.leaf_len)
    }

    /// The chunks of `leaves`, out of the responses to the requests that `needed_groups` gives.
    pub fn read_rg_chunks(
        &self,
        rg_idx: usize,
        leaves: &[usize],
        responses: &HashMap<usize, Bytes>,
    ) -> (chunks: HashMap<usize, OffsetBytes>)
        requires
            leaves@.len() > 0 ==> self.rgs@.contains_key(rg_idx),
            forall|i: int|
                0 <= i < leaves@.len() ==> self.leaf_fetched(
                    rg_idx,
                    #[trigger] leaves@[i],
                    responses@,
                ),
        ensures
            forall|leaf: usize| #[trigger] chunks@.contains_key(leaf) <==> leaves@.contains(leaf),
            forall|leaf: usize| #[trigger]
                chunks@.contains_key(leaf) ==> {
                    let chunk = chunks@[leaf];
                    &&& chunk.wf()
                    &&& chunk.fragments is None
                    &&& chunk.file_len == self.file_len
                    &&& chunk.base == self.rgs@[rg_idx].leaves@[leaf].leaf_start
                    &&& content(chunk.bytes) == self.leaf_bytes(rg_idx, leaf, responses@)
                },
    {
        let mut chunks: HashMap<usize, OffsetBytes> = HashMap::new();
        if leaves.len() == 0 {
            return chunks;
        }
        let rg: &RgState = match self.rgs.get(&rg_idx) {
            Some(rg) => rg,
            None => {
                return chunks;
            },
        };
        let mut i: usize = 0;
        while i < leaves.len()
            invariant
                i <= leaves@.len(),
                self.rgs@.contains_key(rg_idx),
                rg == self.rgs@[rg_idx],
                forall|i: int|
                    0 <= i < leaves@.len() ==> self.leaf_fetched(
                        rg_idx,
                        #[trigger] leaves@[i],
                        responses@,
                    ),
                forall|leaf: usize| #[trigger]
                    chunks@.contains_key(leaf) <==> leaves@.take(i as int).contains(leaf),
                forall|leaf: usize| #[trigger]
                    chunks@.contains_key(leaf) ==> {
                        let chunk = chunks@[leaf];
                        &&& chunk.wf()
                        &&& chunk.fragments is None
                        &&& chunk.file_len == self.file_len
                        &&& chunk.base == self.rgs@[rg_idx].leaves@[leaf].leaf_start
                        &&& content(chunk.bytes) == self.leaf_bytes(rg_idx, leaf, responses@)
                    },
            decreases leaves@.len() - i,
        {
            let leaf: usize = leaves[i];
            assert(self.leaf_fetched(rg_idx, leaves@[i as int], responses@));
            let ghost before = chunks@;
            match rg.leaves.get(&leaf) {
                Some(loc) => {
                    match responses.get(&loc.group_idx) {
                        Some(bytes) => {
                            let group_start: u64 = rg.groups[loc.group_idx].start;
                            let total: usize = crate::offset_bytes::bytes_len(bytes);
                            let local: usize = (loc.leaf_start - group_start) as usize;
                            let part: Bytes = bytes_slice(bytes, local, local + loc.leaf_len as usize);
                            chunks.insert(
                                leaf,
                                OffsetBytes::contiguous(loc.leaf_start, self.file_len, part),
                            );
                        },
                        None => {},
                    }
                },
                None => {},
            }
            proof {
                let was = leaves@.take(i as int);
                let now = leaves@.take(i + 1);
                assert(now =~= was.push(leaf));
                assert forall|l: usize| #[trigger] chunks@.contains_key(l) <==> now.contains(l) by {
                    assert(before.contains_key(l) <==> was.contains(l));
                    assert(now[i as int] == leaf);
                    if was.contains(l) {
                        let j = choose|j: int| 0 <= j < was.len() && was[j] == l;
                        assert(now[j] == l);
                    }
                    if now.contains(l) && l != leaf {
                        let j = choose|j: int| 0 <= j < now.len() && now[j] == l;
                        assert(was[j] == l);
                    }
                }
            }
            i = i + 1;
        }
        assert(leaves@.take(leaves@.len() as int) =~= leaves@);
        chunks
    }
}

/// What is read is what the file holds: where a response has the file's bytes from the start
/// of its request to its end, the bytes of each member are the file's bytes at its place.
pub proof fn parts_are_file_bytes(fetched: FetchedGroup, file: Seq<u8>, member: LeafRange)
    requires
        fetched.fits(),
        fetched.group.end <= file.len(),
        content(fetched.bytes) == file.subrange(fetched.group.start as int, fetched.group.end as int),
        fetched.group.members@.contains(member),
    ensures
        fetched.part(member).data == file.subrange(member.start as int, member.end()),
{
    let k = choose|k: int| 0 <= k < fetched.group.members@.len() && fetched.group.members@[k] == member;
    assert(fetched.group@.members[k] == member);
    assert(fetched.part(member).data =~= file.subrange(member.start as int, member.end()));
}

/// The same of chunks whose requests were made ahead of the reads.
pub proof fn leaf_bytes_are_file_bytes(
    source: RemoteChunkSource,
    rg_idx: usize,
    leaf: usize,
    responses: Map<usize, Bytes>,
    file: Seq<u8>,
)
    requires
        source.leaf_fetched(rg_idx, leaf, responses),
        ({
            let group = source.rgs@[rg_idx].groups@[source.rgs@[rg_idx].leaves@[leaf].group_idx as int];
            &&& group.start <= group.end <= file.len()
            &&& content(responses[source.rgs@[rg_idx].leaves@[leaf].group_idx]) == file.subrange(
                group.start as int,
                group.end as int,
            )
        }),
    ensures
        ({
            let loc = source.rgs@[rg_idx].leaves@[leaf];
            source.leaf_bytes(rg_idx, leaf, responses) == file.subrange(
                loc.leaf_start as int,
                loc.leaf_start + loc.leaf_len,
            )
        }),
{
    let loc = source.rgs@[rg_idx].leaves@[leaf];
    assert(source.leaf_bytes(rg_idx, leaf, responses) =~= file.subrange(
        loc.leaf_start as int,
        loc.leaf_start + loc.leaf_len,
    ));
}

/// Whether a text is among others.
pub open spec fn mentions(names: Seq<String>, name: Seq<char>) -> bool {
    exists|i: int| 0 <= i < names.len() && (#[trigger] names[i])@ == name
}

/// Whether leaf column `i` is fetched: all are, if no columns were asked for; else those whose
/// root column was asked for or is needed by the predicate.
pub open spec fn is_active(
    columns: Option<Seq<String>>,
    predicate_columns: Seq<String>,
    root: Option<String>,
) -> bool {
    match columns {
        None => true,
        Some(names) => root is Some && (mentions(names, root->0@) || mentions(
            predicate_columns,
            root->0@,
        )),
    }
}

/// The active ones of the first `n` leaf columns, in order.
pub open spec fn active_before(
    columns: Option<Seq<String>>,
    predicate_columns: Seq<String>,
    roots: Seq<Option<String>>,
    n: int,
) -> Seq<usize>
    decreases n,
{
    if n <= 0 {
        Seq::empty()
    } else if is_active(columns, predicate_columns, roots[n - 1]) {
        active_before(columns, predicate_columns, roots, n - 1).push((n - 1) as usize)
    } else {
        active_before(columns, predicate_columns, roots, n - 1)
    }
}

fn contains_name(names: &[String], name: &String) -> (b: bool)
    ensures
        b == mentions(names@, name@),
{
    let mut i: usize = 0;
    while i < names.len()
        invariant
            i <= names@.len(),
            forall|k: int| 0 <= k < i ==> (#[trigger] names@[k])@ != name@,
        decreases names@.len() - i,
    {
        if names[i] == *name {
            assert(names@[i as int]@ == name@);
            return true;
        }
        i = i + 1;
    }
    false
}

/// The leaf columns to fetch ahead: `roots` has the first part of each leaf's path.
pub fn active_columns(
    columns: Option<&[String]>,
    predicate_columns: &[String],
    roots: &[Option<String>],
) -> (out: Vec<usize>)
    ensures
        out@ == active_before(
            match columns {
                Some(names) => Some(names@),
                None => None,
            },
            predicate_columns@,
            roots@,
            roots@.len() as int,
        ),
{
    let ghost asked: Option<Seq<String>> = match columns {
        Some(names) => Some(names@),
        None => None,
    };
    let mut out: Vec<usize> = Vec::new();
    let mut i: usize = 0;
    while i < roots.len()
        invariant
            i <= roots@.len(),
            asked == (match columns {
                Some(names) => Some(names@),
                None => None,
            }),
            out@ == active_before(asked, predicate_columns@, roots@, i as int),
        decreases roots@.len() - i,
    {
        let active: bool = match columns {
            None => true,
            Some(names) => match &roots[i] {
                Some(root) => contains_name(names, root) || contains_name(predicate_columns, root),
                None => false,
            },
        };
        assert(active == is_active(asked, predicate_columns@, roots@[i as int]));
        if active {
            out.push(i);
        }
        i = i + 1;
    }
    out
}

/// A read of a range of a file that goes on until the range is full.
pub struct ExactRead {
    /// Where the next byte of the range is.
    pub offset: u64,
    /// How many bytes are still missing.
    pub missing: usize,
}

/// What follows one read.
pub enum ReadProgress {
    /// Read again, what is missing from the offset on.
    Again,
    /// The range is full.
    Done,
    Fail(IoError),
}

/// Whether nothing is missing, or another read is needed.
pub fn next_read(state: &ExactRead) -> (p: ReadProgress)
    ensures
        p == (if state.missing == 0 { ReadProgress::Done } else { ReadProgress::Again }),
{
    if state.missing == 0 {
        ReadProgress::Done
    } else {
        ReadProgress::Again
    }
}

/// Takes the result of one read: short reads go on behind what was read, interruptions are
/// repeated, the end of the file is an error.
pub fn read_exact_range(state: &mut ExactRead, outcome: Result<usize, IoError>) -> (p: ReadProgress)
    requires
        old(state).missing > 0,
        outcome matches Ok(n) ==> n <= old(state).missing,
    ensures
        match outcome {
            Err(e) => {
                &&& *final(state) == *old(state)
                &&& p == (if e.kind == IoErrorKind::Interrupted {
                    ReadProgress::Again
                } else {
                    ReadProgress::Fail(e)
                })
            },
            Ok(n) => if n == 0 {
                &&& *final(state) == *old(state)
                &&& p matches ReadProgress::Fail(e) && e.is_plain(
                    IoErrorKind::UnexpectedEof,
                    "short Parquet range read"@,
                )
            } else if old(state).offset + n > u64::MAX {
                &&& *final(state) == *old(state)
                &&& p matches ReadProgress::Fail(e) && e.is_plain(
                    IoErrorKind::InvalidInput,
                    "Parquet read offset overflow"@,
                )
            } else {
                &&& final(state).offset == old(state).offset + n
                &&& final(state).missing == old(state).missing - n
                &&& p == (if n == old(state).missing {
                    ReadProgress::Done
                } else {
                    ReadProgress::Again
                })
            },
        },
{
    match outcome {
        Err(e) => if e.kind == IoErrorKind::Interrupted {
            ReadProgress::Again
        } else {
            ReadProgress::Fail(e)
        },
        Ok(n) => {
            if n == 0 {
                return ReadProgress::Fail(
                    IoError::new(IoErrorKind::UnexpectedEof, "short Parquet range read"),
                );
            }
            match state.offset.checked_add(n as u64) {
                Some(offset) => {
                    state.offset = offset;
                    state.missing = state.missing - n;
                    next_read(state)
                },
                None => ReadProgress::Fail(
                    IoError::new(IoErrorKind::InvalidInput, "Parquet read offset overflow"),
                ),
            }
        },
    }
}

/// How a row group is opened.
#[derive(Clone, Copy, Debug, PartialEq, Eq, Structural)]
pub enum OpenMode {
    /// All leaves are read at once, before any is decoded.
    Prefetch,
    /// Each column waits only for the requests that hold its leaves.
    Lazy,
}

/// Where chunks come from.
#[derive(Clone, Copy, Debug, PartialEq, Eq, Structural)]
pub enum SourceKind {
    Local,
    /// The requests are made ahead of the reads.
    RemoteRanged,
    /// The requests are made when the selection of rows is known.
    RemoteDeferred,
}

/// Which source is built: remote reads are deferred only where that is asked for.
pub fn build(remote: bool, defer_reads: bool) -> (k: SourceKind)
    ensures
        !remote ==> k == SourceKind::Local,
        remote && defer_reads ==> k == SourceKind::RemoteDeferred,
        remote && !defer_reads ==> k == SourceKind::RemoteRanged,
{
    if !remote {
        SourceKind::Local
    } else if defer_reads {
        SourceKind::RemoteDeferred
    } else {
        SourceKind::RemoteRanged
    }
}

/// How a row group of a source is opened.
pub fn open_rg(kind: SourceKind) -> (m: OpenMode)
    ensures
        m == OpenMode::Lazy <==> kind == SourceKind::RemoteRanged,
{
    match kind {
        SourceKind::RemoteRanged => OpenMode::Lazy,
        _ => OpenMode::Prefetch,
    }
}

/// A leaf column is fetched exactly where no columns were asked for, or its root column was
/// asked for, or the predicate needs that.
pub proof fn asked_for_columns_are_active(
    columns: Option<Seq<String>>,
    predicate_columns: Seq<String>,
    roots: Seq<Option<String>>,
    n: int,
    leaf: usize,
)
    requires
        0 <= n <= roots.len() <= usize::MAX,
    ensures
        active_before(columns, predicate_columns, roots, n).contains(leaf) <==> leaf < n && (columns
            is None || (roots[leaf as int] is Some && ((exists|i: int|
            0 <= i < columns->0.len() && (#[trigger] columns->0[i])@ == roots[leaf as int]->0@) || (
        exists|i: int|
            0 <= i < predicate_columns.len() && (#[trigger] predicate_columns[i])@
                == roots[leaf as int]->0@)))),
        strictly_ascending(active_before(columns, predicate_columns, roots, n)),
        forall|k: int|
            0 <= k < active_before(columns, predicate_columns, roots, n).len()
                ==> #[trigger] active_before(columns, predicate_columns, roots, n)[k] < n,
    decreases n,
{
    if n > 0 {
        asked_for_columns_are_active(columns, predicate_columns, roots, n - 1, leaf);
        let before = active_before(columns, predicate_columns, roots, n - 1);
        let all = active_before(columns, predicate_columns, roots, n);
        if all.len() > before.len() {
            assert(all[before.len() as int] == n - 1);
            if before.contains(leaf) {
                let k = choose|k: int| 0 <= k < before.len() && before[k] == leaf;
                assert(all[k] == leaf);
            }
            if all.contains(leaf) && leaf != n - 1 {
                let k = choose|k: int| 0 <= k < all.len() && all[k] == leaf;
                assert(before[k] == leaf);
            }
        }
    }
}

/// A leaf is reported as not fetched exactly where it is, and the first such leaf is.
pub proof fn first_missing_leaf_is_reported(
    source: RemoteChunkSource,
    rg_idx: usize,
    leaves: Seq<usize>,
    i: int,
)
    ensures
        source.missing(rg_idx, leaves) is None <==> forall|j: int|
            0 <= j < leaves.len() ==> source.rgs@[rg_idx].leaves@.contains_key(#[trigger] leaves[j]),
        0 <= i < leaves.len() && !source.rgs@[rg_idx].leaves@.contains_key(leaves[i]) && (forall|
            j: int,
        |
            0 <= j < i ==> source.rgs@[rg_idx].leaves@.contains_key(#[trigger] leaves[j]))
            ==> source.missing(rg_idx, leaves) == Some(leaves[i]),
    decreases leaves.len(),
{
    if leaves.len() > 0 {
        let before = leaves.drop_last();
        let there = source.rgs@[rg_idx].leaves@;
        first_missing_leaf_is_reported(source, rg_idx, before, i);
        if forall|j: int| 0 <= j < leaves.len() ==> there.contains_key(#[trigger] leaves[j]) {
            assert(there.contains_key(leaves[leaves.len() - 1]));
            assert forall|j: int| 0 <= j < before.len() implies there.contains_key(
                #[trigger] before[j],
            ) by {
                assert(before[j] == leaves[j]);
            }
        }
        if source.missing(rg_idx, leaves) is None {
            assert forall|j: int| 0 <= j < leaves.len() implies there.contains_key(
                #[trigger] leaves[j],
            ) by {
                if j < before.len() {
                    assert(before[j] == leaves[j]);
                }
            }
        }
        if 0 <= i < leaves.len() && !there.contains_key(leaves[i]) && (forall|j: int|
            0 <= j < i ==> there.contains_key(#[trigger] leaves[j])) {
            if i < before.len() {
                assert(before[i] == leaves[i]);
                assert forall|j: int| 0 <= j < i implies there.contains_key(
                    #[trigger] before[j],
                ) by {
                    assert(before[j] == leaves[j]);
                }
            } else {
                assert forall|j: int| 0 <= j < before.len() implies there.contains_key(
                    #[trigger] before[j],
                ) by {
                    assert(before[j] == leaves[j]);
                }
            }
        }
    }
}

/// Every leaf is requested ahead: it has a location, which is the place of its whole chunk, in a
/// request that has that chunk as a member.
pub proof fn every_leaf_is_requested_ahead(
    state: RgState,
    columns: Seq<ColumnChunkMeta>,
    leaves: Seq<usize>,
    i: int,
)
    requires
        state.fetches(columns, leaves),
        chunks_placed(columns, leaves, 1_048_576),
        0 <= i < leaves.len(),
    ensures
        state.leaves@.contains_key(leaves[i]),
        state.leaves@[leaves[i]].leaf_start == columns[leaves[i] as int].first_offset(),
        state.leaves@[leaves[i]].leaf_len == columns[leaves[i] as int].compressed_size,
        state.leaves@[leaves[i]].group_idx < state.groups@.len(),
        state.groups@[state.leaves@[leaves[i]].group_idx as int].members@.contains(
            columns[leaves[i] as int].whole(leaves[i]),
        ),
{
    let pieces = whole_chunks(columns, leaves);
    let groups = views(state.groups@);
    assert forall|k: int| 0 <= k < pieces.len() implies (#[trigger] pieces[k]).end()
        + REMOTE_COALESCE_GAP <= u64::MAX by {
        assert(leaves[k] < columns.len());
    }
    crate::chunk_source::requests_keep_pieces(pieces, REMOTE_COALESCE_GAP);
    sorted_contains(pieces);
    let all = crate::chunk_source::all_members(groups);
    assert(pieces.contains(pieces[i]));
    assert(all.contains(pieces[i]));
    let p = choose|p: int| 0 <= p < all.len() && all[p] == pieces[i];
    let at = crate::chunk_source::listed_members_are_in_a_group(groups, p);
    assert(groups.len() == state.groups@.len());
    assert(state.groups.len() as int == state.groups@.len());
    locations_point_to_members(groups);
    assert(groups[at.0].members[at.1].leaf == leaves[i]);
    let loc = state.leaves@[leaves[i]];
    assert(loc_valid(groups, leaves[i], loc));
    let member = LeafRange { leaf: leaves[i], start: loc.leaf_start, len: loc.leaf_len };
    let members = groups[loc.group_idx as int].members;
    let m = choose|m: int| 0 <= m < members.len() && members[m] == member;
    crate::chunk_source::members_are_listed_group_by_group(groups, loc.group_idx as int, m);
    assert(pieces.contains(member));
    let k = choose|k: int| 0 <= k < pieces.len() && pieces[k] == member;
    assert(leaves[k] == leaves[i]);
    assert(leaves[k] < columns.len());
    assert(groups[loc.group_idx as int] == state.groups@[loc.group_idx as int]@);
}

} // verus!
