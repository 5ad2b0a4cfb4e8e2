//! Grouping the pieces of column chunks into requests, and handing the fetched bytes out.
use vstd::prelude::*;

use crate::page_ranges::LeafRange;
use crate::sort::{is_sorted, reversed, sort, sorted, sorted_contains, sorted_is_sorted, Keyed};

verus! {

/// Pieces of a local file with at most so many bytes between them are read together.
pub const LOCAL_COALESCE_GAP: u64 = 65_536;

/// Pieces of a remote file with at most so many bytes between them are fetched together.
pub const REMOTE_COALESCE_GAP: u64 = 1_048_576;

/// A request for more bytes than this is split.
pub const SPLIT_THRESHOLD: u64 = 25_165_824;

/// The bytes that a split request aims at.
pub const MAX_REQUEST_SIZE: u64 = 16_777_216;

impl Keyed for LeafRange {
    open spec fn spec_key(&self) -> int {
        self.start as int
    }

    fn not_after(&self, other: &Self) -> (b: bool) {
        self.start <= other.start
    }
}

impl LeafRange {
    /// Where the piece ends.
    pub open spec fn end(self) -> int {
        self.start + self.len
    }
}

/// Pieces that are fetched with one request for the bytes from `start` to `end`.
pub struct RangeGroup {
    pub start: u64,
    pub end: u64,
    pub members: Vec<LeafRange>,
}

/// A group as a mathematical value.
pub struct Group {
    pub start: u64,
    pub end: u64,
    pub members: Seq<LeafRange>,
}

impl View for RangeGroup {
    type V = Group;

    open spec fn view(&self) -> Group {
        Group { start: self.start, end: self.end, members: self.members@ }
    }
}

/// Groups as mathematical values.
pub open spec fn views(groups: Seq<RangeGroup>) -> Seq<Group> {
    groups.map_values(|g: RangeGroup| g@)
}

/// One more piece added to groups: it joins the last of them if it begins at most `max_gap`
/// behind its end.
pub open spec fn group_one(groups: Seq<Group>, piece: LeafRange, max_gap: u64) -> Seq<Group> {
    if groups.len() > 0 && piece.start <= groups.last().end + max_gap {
        let last = groups.last();
        groups.drop_last().push(
            Group {
                start: last.start,
                end: if last.end >= piece.end() { last.end } else { piece.end() as u64 },
                members: last.members.push(piece),
            },
        )
    } else {
        groups.push(
            Group { start: piece.start, end: piece.end() as u64, members: seq![piece] },
        )
    }
}

/// Pieces, in their order, in groups.
pub open spec fn grouped(pieces: Seq<LeafRange>, max_gap: u64) -> Seq<Group>
    decreases pieces.len(),
{
    if pieces.len() == 0 {
        Seq::empty()
    } else {
        group_one(grouped(pieces.drop_last(), max_gap), pieces.last(), max_gap)
    }
}

/// Whether every piece ends so far below the largest position that a gap can be added.
pub open spec fn ends_fit(pieces: Seq<LeafRange>, max_gap: u64) -> bool {
    forall|i: int| 0 <= i < pieces.len() ==> (#[trigger] pieces[i]).end() + max_gap <= u64::MAX
}

/// Whether a group holds its members: it begins with the first of them, they ascend, and it
/// ends at the end of the one that reaches furthest.
pub open spec fn holds_members(g: Group) -> bool {
    &&& g.members.len() > 0
    &&& g.start == g.members[0].start
    &&& is_sorted(g.members)
    &&& forall|i: int|
        0 <= i < g.members.len() ==> g.start <= (#[trigger] g.members[i]).start
            && g.members[i].end() <= g.end
    &&& exists|i: int| 0 <= i < g.members.len() && (#[trigger] g.members[i]).end() == g.end
}

/// The members of groups, one group after the other.
pub open spec fn all_members(groups: Seq<Group>) -> Seq<LeafRange>
    decreases groups.len(),
{
    if groups.len() == 0 {
        Seq::empty()
    } else {
        all_members(groups.drop_last()) + groups.last().members
    }
}

/// Grouping ascending pieces keeps every piece, in order; every group holds its members; and
/// there is more than `max_gap` between any two groups.
pub proof fn grouping_keeps_pieces(pieces: Seq<LeafRange>, max_gap: u64)
    requires
        is_sorted(pieces),
        ends_fit(pieces, max_gap),
    ensures
        all_members(grouped(pieces, max_gap)) == pieces,
        forall|k: int|
            0 <= k < grouped(pieces, max_gap).len() ==> holds_members(
                #[trigger] grouped(pieces, max_gap)[k],
            ),
        forall|k: int|
            0 <= k < grouped(pieces, max_gap).len() ==> (#[trigger] grouped(pieces, max_gap)[k]).end
                + max_gap <= u64::MAX,
        forall|a: int, b: int|
            #![trigger grouped(pieces, max_gap)[a], grouped(pieces, max_gap)[b]]
            0 <= a < b < grouped(pieces, max_gap).len() ==> grouped(pieces, max_gap)[a].end
                + max_gap < grouped(pieces, max_gap)[b].start,
    decreases pieces.len(),
{
    if pieces.len() > 0 {
        let before = pieces.drop_last();
        let piece = pieces.last();
        assert forall|i: int, j: int|
            #![trigger before[i], before[j]]
            0 <= i <= j < before.len() implies before[i].spec_key() <= before[j].spec_key() by {
            assert(before[i] == pieces[i] && before[j] == pieces[j]);
        }
        assert forall|i: int| 0 <= i < before.len() implies (#[trigger] before[i]).end() + max_gap
            <= u64::MAX by {
            assert(before[i] == pieces[i]);
        }
        grouping_keeps_pieces(before, max_gap);
        let g = grouped(before, max_gap);
        let r = grouped(pieces, max_gap);
        assert(pieces[pieces.len() - 1] == piece);
        if g.len() > 0 && piece.start <= g.last().end + max_gap {
            let last = g.last();
            assert(g[g.len() - 1] == last);
            let now = r.last();
            assert(r.drop_last() =~= g.drop_last());
            assert(all_members(r) =~= pieces) by {
                assert(all_members(g) == all_members(g.drop_last()) + last.members);
                assert(before.push(piece) =~= pieces);
            }
            lemma_members_before(g);
            assert(holds_members(now)) by {
                assert forall|i: int| 0 <= i < last.members.len() implies (#[trigger] last.members[i]).start
                    <= piece.start by {
                    let at = all_members(g.drop_last()).len() + i;
                    assert(before[at] == last.members[i]);
                    assert(pieces[at] == before[at]);
                    assert(pieces[at].spec_key() <= pieces[pieces.len() - 1].spec_key());
                }
                assert forall|i: int, j: int|
                    #![trigger now.members[i], now.members[j]]
                    0 <= i <= j < now.members.len() implies now.members[i].spec_key()
                    <= now.members[j].spec_key() by {
                    if i < last.members.len() {
                        assert(now.members[i] == last.members[i]);
                    }
                    if j < last.members.len() {
                        assert(now.members[j] == last.members[j]);
                    }
                }
                assert(now.members[0] == last.members[0]);
                assert forall|i: int| 0 <= i < now.members.len() implies now.start
                    <= (#[trigger] now.members[i]).start && now.members[i].end() <= now.end by {
                    if i < last.members.len() {
                        assert(now.members[i] == last.members[i]);
                    } else {
                        assert(last.members[0].start <= piece.start);
                    }
                }
                if last.end >= piece.end() {
                    let i = choose|i: int|
                        0 <= i < last.members.len() && (#[trigger] last.members[i]).end() == last.end;
                    assert(now.members[i].end() == now.end);
                } else {
                    assert(now.members[now.members.len() - 1].end() == now.end);
                }
            }
            assert forall|k: int| 0 <= k < r.len() implies holds_members(#[trigger] r[k]) && r[k].end
                + max_gap <= u64::MAX by {
                if k < g.len() - 1 {
                    assert(r[k] == g[k]);
                }
            }
            assert forall|a: int, b: int|
                #![trigger r[a], r[b]]
                0 <= a < b < r.len() implies r[a].end + max_gap < r[b].start by {
                assert(r[a] == g[a]);
                assert(g[b].start == r[b].start);
            }
        } else {
            let now = r.last();
            assert(r.drop_last() =~= g);
            assert(all_members(r) =~= pieces) by {
                assert(before.push(piece) =~= pieces);
            }
            assert(now.members[0] == piece);
            assert(holds_members(now));
            assert forall|k: int| 0 <= k < r.len() implies holds_members(#[trigger] r[k]) && r[k].end
                + max_gap <= u64::MAX by {
                if k < g.len() {
                    assert(r[k] == g[k]);
                }
            }
            assert forall|a: int, b: int|
                #![trigger r[a], r[b]]
                0 <= a < b < r.len() implies r[a].end + max_gap < r[b].start by {
                assert(r[a] == g[a]);
                if b < g.len() {
                    assert(r[b] == g[b]);
                } else if a < g.len() - 1 {
                    lemma_last_group_reaches(g, a, max_gap);
                } else {
                    assert(g[a] == g.last());
                }
            }
        }
    }
}

proof fn lemma_last_group_reaches(g: Seq<Group>, a: int, max_gap: u64)
    requires
        0 <= a < g.len() - 1,
        forall|k: int| 0 <= k < g.len() ==> holds_members(#[trigger] g[k]),
        forall|a: int, b: int|
            #![trigger g[a], g[b]]
            0 <= a < b < g.len() ==> g[a].end + max_gap < g[b].start,
    ensures
        g[a].end <= g.last().end,
{
    let last = g[g.len() - 1];
    assert(g[a].end + max_gap < last.start);
    assert(holds_members(last));
    assert(last.members[0].end() <= last.end);
}

proof fn lemma_members_before(g: Seq<Group>)
    requires
        g.len() > 0,
    ensures
        forall|i: int|
            0 <= i < g.last().members.len() ==> all_members(g)[all_members(g.drop_last()).len() + i]
                == #[trigger] g.last().members[i],
{
}

/// Puts pieces into groups, after sorting them by where they begin.
pub fn coalesce_ranges(leaf_ranges: Vec<LeafRange>, max_gap: u64) -> (groups: Vec<RangeGroup>)
    requires
        ends_fit(leaf_ranges@, max_gap),
    ensures
        views(groups@) == grouped(sorted(leaf_ranges@), max_gap),
{
    let ghost input = leaf_ranges@;
    let pieces: Vec<LeafRange> = sort(leaf_ranges);
    proof {
        sorted_is_sorted(input);
        sorted_contains(input);
        assert forall|i: int| 0 <= i < pieces@.len() implies (#[trigger] pieces@[i]).end() + max_gap
            <= u64::MAX by {
            assert(sorted(input).contains(pieces@[i]));
            let k = choose|k: int| 0 <= k < input.len() && input[k] == pieces@[i];
            assert(input[k].end() + max_gap <= u64::MAX);
        }
    }
    let mut groups: Vec<RangeGroup> = Vec::new();
    let mut i: usize = 0;
    assert(pieces@.take(0) =~= Seq::<LeafRange>::empty());
    assert(views(groups@) =~= grouped(pieces@.take(0), max_gap));
    while i < pieces.len()
        invariant
            i <= pieces@.len(),
            ends_fit(pieces@, max_gap),
            views(groups@) == grouped(pieces@.take(i as int), max_gap),
            groups@.len() > 0 ==> groups@.last().end + max_gap <= u64::MAX,
        decreases pieces@.len() - i,
    {
        let piece: LeafRange = pieces[i];
        assert(piece.end() + max_gap <= u64::MAX);
        let piece_end: u64 = piece.start + piece.len;
        proof {
            assert(pieces@.take(i + 1).drop_last() =~= pieces@.take(i as int));
            assert(pieces@.take(i + 1).last() == piece);
        }
        let ghost before = groups@;
        match groups.pop() {
            Some(last) => {
                let mut last: RangeGroup = last;
                assert(views(before).last() == before.last()@);
                assert(views(before).drop_last() =~= views(groups@));
                if piece.start <= last.end + max_gap {
                    if last.end < piece_end {
                        last.end = piece_end;
                    }
                    last.members.push(piece);
                    let ghost joined = last@;
                    groups.push(last);
                    assert(views(groups@) =~= group_one(views(before), piece, max_gap));
                } else {
                    groups.push(last);
                    let mut members: Vec<LeafRange> = Vec::new();
                    members.push(piece);
                    assert(members@ =~= seq![piece]);
                    groups.push(RangeGroup { start: piece.start, end: piece_end, members });
                    assert(views(groups@) =~= group_one(views(before), piece, max_gap));
                }
            },
            None => {
                let mut members: Vec<LeafRange> = Vec::new();
                members.push(piece);
                assert(members@ =~= seq![piece]);
                groups.push(RangeGroup { start: piece.start, end: piece_end, members });
                assert(views(groups@) =~= group_one(views(before), piece, max_gap));
            },
        }
        i = i + 1;
    }
    assert(pieces@.take(pieces@.len() as int) =~= pieces@);
    groups
}

/// The pieces of a request so far, while it is being split.
pub struct Split {
    /// The pieces that are complete.
    pub done: Seq<Group>,
    /// The piece at hand.
    pub open: Group,
}

/// One more member: it begins a new request if the one at hand would become too large.
pub open spec fn split_one(s: Split, member: LeafRange) -> Split {
    if s.open.members.len() > 0 && member.end() - s.open.start > MAX_REQUEST_SIZE {
        Split {
            done: s.done.push(s.open),
            open: Group { start: member.start, end: member.end() as u64, members: seq![member] },
        }
    } else {
        Split {
            done: s.done,
            open: Group {
                start: s.open.start,
                end: member.end() as u64,
                members: s.open.members.push(member),
            },
        }
    }
}

/// The members of a group, in order, in requests that begin at `start`.
pub open spec fn split_members(start: u64, members: Seq<LeafRange>) -> Split
    decreases members.len(),
{
    if members.len() == 0 {
        Split { done: Seq::empty(), open: Group { start, end: start, members: Seq::empty() } }
    } else {
        split_one(split_members(start, members.drop_last()), members.last())
    }
}

/// A group as one request, or as several if it has too many bytes.
pub open spec fn split_group(g: Group) -> Seq<Group> {
    if g.end - g.start <= SPLIT_THRESHOLD {
        seq![g]
    } else {
        let s = split_members(g.start, g.members);
        if s.open.members.len() > 0 { s.done.push(s.open) } else { s.done }
    }
}

/// All groups, each as one or several requests.
pub open spec fn split_groups(groups: Seq<Group>) -> Seq<Group>
    decreases groups.len(),
{
    if groups.len() == 0 {
        Seq::empty()
    } else {
        split_groups(groups.drop_last()) + split_group(groups.last())
    }
}

proof fn lemma_all_members_concat(a: Seq<Group>, b: Seq<Group>)
    ensures
        all_members(a + b) == all_members(a) + all_members(b),
    decreases b.len(),
{
    if b.len() == 0 {
        assert(a + b =~= a);
        assert(all_members(a) + all_members(b) =~= all_members(a));
    } else {
        assert((a + b).drop_last() =~= a + b.drop_last());
        lemma_all_members_concat(a, b.drop_last());
        assert(all_members(a + b) =~= all_members(a) + all_members(b));
    }
}

proof fn lemma_split_keeps_members(start: u64, members: Seq<LeafRange>)
    ensures
        all_members(split_members(start, members).done) + split_members(start, members).open.members
            == members,
        members.len() > 0 ==> split_members(start, members).open.members.len() > 0,
    decreases members.len(),
{
    let s = split_members(start, members);
    if members.len() == 0 {
        assert(all_members(s.done) + s.open.members =~= members);
    } else {
        lemma_split_keeps_members(start, members.drop_last());
        let before = split_members(start, members.drop_last());
        assert(members.drop_last().push(members.last()) =~= members);
        if before.open.members.len() > 0 && members.last().end() - before.open.start
            > MAX_REQUEST_SIZE {
            assert(s.done.drop_last() =~= before.done);
            assert(all_members(s.done) + s.open.members =~= members);
        } else {
            assert(all_members(s.done) + s.open.members =~= members);
        }
    }
}

/// Splitting keeps every piece, in order.
pub proof fn splitting_keeps_pieces(groups: Seq<Group>)
    ensures
        all_members(split_groups(groups)) == all_members(groups),
    decreases groups.len(),
{
    if groups.len() > 0 {
        splitting_keeps_pieces(groups.drop_last());
        let g = groups.last();
        let parts = split_group(g);
        lemma_all_members_concat(split_groups(groups.drop_last()), parts);
        if g.end - g.start <= SPLIT_THRESHOLD {
            assert(parts.drop_last() =~= Seq::<Group>::empty());
            assert(all_members(parts.drop_last()) =~= Seq::<LeafRange>::empty());
            assert(parts.last() == g);
            assert(all_members(parts) =~= g.members);
        } else {
            lemma_split_keeps_members(g.start, g.members);
            let s = split_members(g.start, g.members);
            if s.open.members.len() > 0 {
                assert(parts.drop_last() =~= s.done);
                assert(parts.last() == s.open);
            } else {
                assert(all_members(s.done) + s.open.members =~= all_members(s.done));
            }
            assert(all_members(parts) =~= g.members);
        }
    }
}

/// Whether no piece reaches behind the end of a later one. Chunks of different columns never
/// overlap, so the pieces of a well-formed file are like this once they are sorted.
pub open spec fn ends_ascend(pieces: Seq<LeafRange>) -> bool {
    forall|i: int, j: int|
        #![trigger pieces[i], pieces[j]]
        0 <= i <= j < pieces.len() ==> pieces[i].start <= pieces[j].start && pieces[i].end()
            <= pieces[j].end()
}

/// Whether a request covers all of its pieces.
pub open spec fn covers_members(g: Group) -> bool {
    forall|i: int|
        0 <= i < g.members.len() ==> g.start <= (#[trigger] g.members[i]).start
            && g.members[i].end() <= g.end
}

proof fn lemma_split_covers(start: u64, members: Seq<LeafRange>)
    requires
        ends_ascend(members),
        members.len() > 0 ==> start <= members[0].start,
        forall|i: int| 0 <= i < members.len() ==> (#[trigger] members[i]).end() <= u64::MAX,
    ensures
        forall|k: int|
            0 <= k < split_members(start, members).done.len() ==> covers_members(
                #[trigger] split_members(start, members).done[k],
            ),
        covers_members(split_members(start, members).open),
        members.len() > 0 ==> split_members(start, members).open.end == members.last().end()
            && split_members(start, members).open.start <= members.last().start,
        members.len() == 0 ==> split_members(start, members).open.start == start,
    decreases members.len(),
{
    if members.len() > 0 {
        let before = members.drop_last();
        assert forall|i: int, j: int|
            #![trigger before[i], before[j]]
            0 <= i <= j < before.len() implies before[i].start <= before[j].start
            && before[i].end() <= before[j].end() by {
            assert(before[i] == members[i] && before[j] == members[j]);
        }
        assert forall|i: int| 0 <= i < before.len() implies (#[trigger] before[i]).end()
            <= u64::MAX by {
            assert(before[i] == members[i]);
        }
        assert(members[members.len() - 1] == members.last());
        if before.len() > 0 {
            assert(before[0] == members[0]);
            assert(before[before.len() - 1] == members[members.len() - 2]);
            assert(members[members.len() - 2].end() <= members[members.len() - 1].end());
            assert(members[members.len() - 2].start <= members[members.len() - 1].start);
        }
        lemma_split_covers(start, before);
        let p = split_members(start, before);
        let s = split_members(start, members);
        let m = members.last();
        assert forall|i: int| 0 <= i < s.open.members.len() implies s.open.start
            <= (#[trigger] s.open.members[i]).start && s.open.members[i].end() <= s.open.end by {
            if i < s.open.members.len() - 1 {
                assert(s.open.members[i] == p.open.members[i]);
            }
        }
        assert forall|k: int| 0 <= k < s.done.len() implies covers_members(#[trigger] s.done[k]) by {
            if k < p.done.len() {
                assert(s.done[k] == p.done[k]);
            }
        }
    }
}

/// Every request covers its pieces, where no piece of a group reaches behind the end of a
/// later one.
pub proof fn requests_cover_pieces(g: Group, k: int)
    requires
        holds_members(g),
        ends_ascend(g.members),
        0 <= k < split_group(g).len(),
    ensures
        covers_members(split_group(g)[k]),
{
    if g.end - g.start > SPLIT_THRESHOLD {
        assert forall|i: int| 0 <= i < g.members.len() implies (#[trigger] g.members[i]).end()
            <= u64::MAX by {
            assert(g.members[i].end() <= g.end);
        }
        lemma_split_covers(g.start, g.members);
        let s = split_members(g.start, g.members);
        if k < s.done.len() {
            assert(split_group(g)[k] == s.done[k]);
        }
    }
}

proof fn lemma_views_push(groups: Seq<RangeGroup>, g: RangeGroup)
    ensures
        views(groups.push(g)) == views(groups).push(g@),
{
    assert(views(groups.push(g)) =~= views(groups).push(g@));
}

/// The members of a group that has too many bytes, in requests.
fn split_pieces(start: u64, members: &Vec<LeafRange>, Ghost(g): Ghost<Group>) -> (out: Vec<RangeGroup>)
    requires
        holds_members(g),
        g.start == start,
        g.members == members@,
        g.end - g.start > SPLIT_THRESHOLD,
    ensures
        views(out@) == split_group(g),
{
    let mut out: Vec<RangeGroup> = Vec::new();
    let mut piece_start: u64 = start;
    let mut piece_end: u64 = start;
    let mut piece_members: Vec<LeafRange> = Vec::new();
    let mut i: usize = 0;
    proof {
        assert(members@.take(0) =~= Seq::<LeafRange>::empty());
        assert(piece_members@ =~= Seq::<LeafRange>::empty());
        assert(views(out@) =~= split_members(start, members@.take(0)).done);
    }
    while i < members.len()
        invariant
            i <= members@.len(),
            holds_members(g),
            g.members == members@,
            g.start == start,
            i == 0 ==> piece_start == start,
            i > 0 ==> piece_start <= members@[i - 1].start,
            views(out@) == split_members(start, members@.take(i as int)).done,
            split_members(start, members@.take(i as int)).open == (Group {
                start: piece_start,
                end: piece_end,
                members: piece_members@,
            }),
        decreases members@.len() - i,
    {
        let entry: LeafRange = members[i];
        let ghost sofar = split_members(start, members@.take(i as int));
        proof {
            assert(members@.take(i + 1).drop_last() =~= members@.take(i as int));
            assert(members@.take(i + 1).last() == entry);
            assert(split_members(start, members@.take(i + 1)) == split_one(sofar, entry));
            assert(g.members[i as int] == entry);
            assert(entry.end() <= g.end);
            if i > 0 {
                assert(members@[i - 1].spec_key() <= members@[i as int].spec_key());
            }
        }
        let ghost shown = out@;
        let entry_end: u64 = entry.start + entry.len;
        let would_be_size: u64 = entry_end - piece_start;
        if piece_members.len() > 0 && would_be_size > MAX_REQUEST_SIZE {
            let group = RangeGroup { start: piece_start, end: piece_end, members: piece_members };
            proof {
                lemma_views_push(shown, group);
            }
            out.push(group);
            piece_members = Vec::new();
            piece_members.push(entry);
            assert(piece_members@ =~= seq![entry]);
            piece_start = entry.start;
        } else {
            piece_members.push(entry);
        }
        piece_end = entry_end;
        i = i + 1;
    }
    assert(members@.take(members@.len() as int) =~= members@);
    if piece_members.len() > 0 {
        let group = RangeGroup { start: piece_start, end: piece_end, members: piece_members };
        proof {
            lemma_views_push(out@, group);
        }
        out.push(group);
    }
    out
}

/// Splits one group; `out` has the requests before it.
fn split_into(group: RangeGroup, out: &mut Vec<RangeGroup>)
    requires
        holds_members(group@),
    ensures
        views(final(out)@) == views(old(out)@) + split_group(group@),
{
    let ghost before = out@;
    let ghost g = group@;
    if group.end - group.start <= SPLIT_THRESHOLD {
        proof {
            lemma_views_push(before, group);
        }
        out.push(group);
        assert(views(before).push(g) =~= views(before) + split_group(g));
        return;
    }
    let mut parts: Vec<RangeGroup> = split_pieces(group.start, &group.members, Ghost(g));
    let ghost pieces = parts@;
    out.append(&mut parts);
    assert(views(before + pieces) =~= views(before) + views(pieces));
}

/// The requests for pieces that are sorted, grouped and split.
pub open spec fn requests(pieces: Seq<LeafRange>, max_gap: u64) -> Seq<Group> {
    split_groups(grouped(sorted(pieces), max_gap))
}

/// Puts pieces into requests.
pub fn coalesce_and_split_with_gap(leaf_ranges: Vec<LeafRange>, max_gap: u64) -> (out: Vec<
    RangeGroup,
>)
    requires
        ends_fit(leaf_ranges@, max_gap),
    ensures
        views(out@) == requests(leaf_ranges@, max_gap),
{
    let ghost input = leaf_ranges@;
    let groups: Vec<RangeGroup> = coalesce_ranges(leaf_ranges, max_gap);
    let ghost all = groups@;
    proof {
        lemma_sorted_ends_fit(input, max_gap);
        grouping_keeps_pieces(sorted(input), max_gap);
    }
    let mut rest: Vec<RangeGroup> = reversed(groups);
    let mut out: Vec<RangeGroup> = Vec::new();
    assert(views(all).take(0) =~= Seq::<Group>::empty());
    assert(views(out@) =~= split_groups(views(all).take(0)));
    while rest.len() > 0
        invariant
            rest@.len() <= all.len(),
            views(all) == grouped(sorted(input), max_gap),
            forall|k: int|
                0 <= k < grouped(sorted(input), max_gap).len() ==> holds_members(
                    #[trigger] grouped(sorted(input), max_gap)[k],
                ),
            forall|i: int| 0 <= i < rest@.len() ==> #[trigger] rest@[i] == all[all.len() - 1 - i],
            views(out@) == split_groups(views(all).take(all.len() - rest@.len())),
        decreases rest@.len(),
    {
        let ghost at = all.len() - rest@.len();
        match rest.pop() {
            Some(group) => {
                proof {
                    assert(views(all)[at] == group@);
                    assert(holds_members(grouped(sorted(input), max_gap)[at]));
                    assert(views(all).take(at + 1).drop_last() =~= views(all).take(at));
                    assert(views(all).take(at + 1).last() == group@);
                }
                split_into(group, &mut out);
            },
            None => {},
        }
    }
    assert(views(all).take(all.len() as int) =~= views(all));
    out
}

proof fn lemma_sorted_ends_fit(pieces: Seq<LeafRange>, max_gap: u64)
    requires
        ends_fit(pieces, max_gap),
    ensures
        ends_fit(sorted(pieces), max_gap),
        is_sorted(sorted(pieces)),
{
    sorted_is_sorted(pieces);
    sorted_contains(pieces);
    let s = sorted(pieces);
    assert forall|i: int| 0 <= i < s.len() implies (#[trigger] s[i]).end() + max_gap
        <= u64::MAX by {
        assert(s.contains(s[i]));
        let k = choose|k: int| 0 <= k < pieces.len() && pieces[k] == s[i];
        assert(pieces[k].end() + max_gap <= u64::MAX);
    }
}

/// Every piece is in exactly the requests that its position among the sorted pieces gives it:
/// the members of the requests, one after the other, are the sorted pieces.
pub proof fn requests_keep_pieces(pieces: Seq<LeafRange>, max_gap: u64)
    requires
        ends_fit(pieces, max_gap),
    ensures
        all_members(requests(pieces, max_gap)) == sorted(pieces),
        all_members(requests(pieces, max_gap)).to_multiset() == pieces.to_multiset(),
{
    lemma_sorted_ends_fit(pieces, max_gap);
    grouping_keeps_pieces(sorted(pieces), max_gap);
    splitting_keeps_pieces(grouped(sorted(pieces), max_gap));
    sorted_is_sorted(pieces);
}

/// Whether each member of a group but the first begins at most `max_gap` behind the end of one
/// before it.
pub open spec fn hangs_together(g: Group, max_gap: u64) -> bool {
    forall|i: int|
        0 < i < g.members.len() ==> exists|j: int|
            0 <= j < i && (#[trigger] g.members[i]).start <= (#[trigger] g.members[j]).start
                + g.members[j].len + max_gap
}

/// Pieces are fetched together only where no larger gap than allowed is between them: in each
/// group, every piece but the first begins at most that far behind the end of an earlier one.
pub proof fn distant_pieces_are_not_grouped(pieces: Seq<LeafRange>, max_gap: u64, k: int)
    requires
        is_sorted(pieces),
        ends_fit(pieces, max_gap),
        0 <= k < grouped(pieces, max_gap).len(),
    ensures
        hangs_together(grouped(pieces, max_gap)[k], max_gap),
    decreases pieces.len(),
{
    let before = pieces.drop_last();
    let piece = pieces.last();
    let earlier = grouped(before, max_gap);
    let g = grouped(pieces, max_gap)[k];
    assert forall|i: int, j: int| #![trigger before[i], before[j]]
        0 <= i <= j < before.len() implies before[i].spec_key() <= before[j].spec_key() by {
        assert(before[i] == pieces[i] && before[j] == pieces[j]);
    }
    assert forall|i: int| 0 <= i < before.len() implies (#[trigger] before[i]).end() + max_gap
        <= u64::MAX by {
        assert(before[i] == pieces[i]);
    }
    if k < earlier.len() {
        distant_pieces_are_not_grouped(before, max_gap, k);
        if g != earlier[k] {
            grouping_keeps_pieces(before, max_gap);
            let last = earlier[k];
            assert(last == earlier.last());
            assert(holds_members(last));
            let e = choose|e: int|
                0 <= e < last.members.len() && (#[trigger] last.members[e]).end() == last.end;
            assert(g.members == last.members.push(piece));
            assert forall|i: int| 0 < i < g.members.len() implies exists|j: int|
                0 <= j < i && (#[trigger] g.members[i]).start <= (#[trigger] g.members[j]).start
                    + g.members[j].len + max_gap by {
                if i < last.members.len() {
                    assert(g.members[i] == last.members[i]);
                    let j = choose|j: int|
                        0 <= j < i && last.members[i].start <= (#[trigger] last.members[j]).start
                            + last.members[j].len + max_gap;
                    assert(g.members[j] == last.members[j]);
                } else {
                    assert(g.members[e] == last.members[e]);
                    assert(g.members[i].start <= g.members[e].start + g.members[e].len + max_gap);
                }
            }
        }
    }
}

/// A request for no more than 24 MiB is made as it is.
pub proof fn small_requests_are_not_split(g: Group)
    requires
        g.end - g.start <= 25_165_824,
    ensures
        split_group(g) == seq![g],
{
}

/// Whether a request that is split off keeps to its size: more than one piece is in it only
/// where it has no more than 16 MiB.
pub open spec fn keeps_to_size(g: Group) -> bool {
    &&& g.members.len() > 0
    &&& g.members.len() > 1 ==> g.members.last().start + g.members.last().len - g.start
        <= 16_777_216
    &&& g.end == g.members.last().start + g.members.last().len
}

proof fn lemma_split_sizes(start: u64, members: Seq<LeafRange>)
    requires
        members.len() > 0,
        forall|i: int| 0 <= i < members.len() ==> (#[trigger] members[i]).end() <= u64::MAX,
    ensures
        keeps_to_size(split_members(start, members).open),
        forall|k: int|
            0 <= k < split_members(start, members).done.len() ==> keeps_to_size(
                #[trigger] split_members(start, members).done[k],
            ),
        ({
            let s = split_members(start, members);
            let all = s.done.push(s.open);
            &&& all[0].start == start
            &&& forall|k: int|
                0 < k < all.len() ==> {
                    &&& (#[trigger] all[k]).start == all[k].members[0].start
                    &&& all[k].members[0].start + all[k].members[0].len - all[k - 1].start
                        > 16_777_216
                }
        }),
    decreases members.len(),
{
    let before = members.drop_last();
    let m = members.last();
    assert(members[members.len() - 1] == m);
    let s = split_members(start, members);
    let all = s.done.push(s.open);
    if before.len() > 0 {
        assert forall|i: int| 0 <= i < before.len() implies (#[trigger] before[i]).end()
            <= u64::MAX by {
            assert(before[i] == members[i]);
        }
        lemma_split_sizes(start, before);
        let t = split_members(start, before);
        let earlier = t.done.push(t.open);
        assert forall|k: int| 0 < k < all.len() implies {
            &&& (#[trigger] all[k]).start == all[k].members[0].start
            &&& all[k].members[0].start + all[k].members[0].len - all[k - 1].start > 16_777_216
        } by {
            if k < t.done.len() {
                assert(all[k] == earlier[k] && all[k - 1] == earlier[k - 1]);
            } else if k == t.done.len() {
                assert(all[k - 1] == earlier[k - 1]);
                assert(earlier[k] == t.open);
                assert(t.open.start == t.open.members[0].start);
            } else {
                assert(all[k - 1] == t.open);
            }
        }
        assert(all[0].start == earlier[0].start);
    } else {
        assert(before =~= Seq::empty());
        assert(split_members(start, before).open.members.len() == 0);
    }
}

/// A larger request is split into requests of no more than 16 MiB, as far as its pieces allow
/// that: each holds as many pieces as it can, and at least one.
pub proof fn large_requests_are_split(g: Group, k: int)
    requires
        holds_members(g),
        g.end - g.start > 25_165_824,
        0 <= k < split_group(g).len(),
    ensures
        ({
            let r = split_group(g)[k];
            &&& r.members.len() > 0
            &&& r.members.len() > 1 ==> r.members.last().start + r.members.last().len - r.start
                <= 16_777_216
            &&& r.end == r.members.last().start + r.members.last().len
            &&& k == 0 ==> r.start == g.start
            &&& k > 0 ==> r.start == r.members[0].start && r.members[0].start + r.members[0].len
                - split_group(g)[k - 1].start > 16_777_216
        }),
{
    lemma_split_sizes(g.start, g.members);
    let s = split_members(g.start, g.members);
    let all = s.done.push(s.open);
    assert(split_group(g) == all);
    if k < s.done.len() {
        assert(all[k] == s.done[k]);
    }
}

/// Requests are split one by one: splitting some and then others is splitting them all.
pub proof fn splits_join(first: Seq<Group>, second: Seq<Group>)
    ensures
        split_groups(first + second) == split_groups(first) + split_groups(second),
    decreases second.len(),
{
    if second.len() == 0 {
        assert(first + second =~= first);
        assert(split_groups(first) + split_groups(second) =~= split_groups(first));
    } else {
        splits_join(first, second.drop_last());
        assert((first + second).drop_last() =~= first + second.drop_last());
        assert((first + second).last() == second.last());
        assert(split_groups(first + second) =~= split_groups(first) + split_groups(second));
    }
}

/// The members of groups are listed group by group.
pub proof fn members_are_listed_group_by_group(groups: Seq<Group>, k: int, i: int)
    requires
        0 <= k < groups.len(),
        0 <= i < groups[k].members.len(),
    ensures
        all_members(Seq::empty()) == Seq::<LeafRange>::empty(),
        all_members(groups).contains(groups[k].members[i]),
    decreases groups.len(),
{
    let before = all_members(groups.drop_last());
    let all = all_members(groups);
    if k < groups.len() - 1 {
        assert(groups.drop_last()[k] == groups[k]);
        members_are_listed_group_by_group(groups.drop_last(), k, i);
        let p = choose|p: int| 0 <= p < before.len() && before[p] == groups[k].members[i];
        assert(all[p] == groups[k].members[i]);
    } else {
        assert(all[before.len() + i] == groups[k].members[i]);
    }
}

/// Every listed member is one of a group.
pub proof fn listed_members_are_in_a_group(groups: Seq<Group>, p: int) -> (at: (int, int))
    requires
        0 <= p < all_members(groups).len(),
    ensures
        0 <= at.0 < groups.len(),
        0 <= at.1 < groups[at.0].members.len(),
        groups[at.0].members[at.1] == all_members(groups)[p],
    decreases groups.len(),
{
    let before = all_members(groups.drop_last());
    if p < before.len() {
        let at = listed_members_are_in_a_group(groups.drop_last(), p);
        assert(groups.drop_last()[at.0] == groups[at.0]);
        at
    } else {
        (groups.len() - 1, p - before.len())
    }
}

} // verus!
