//! Merging small shuffle partitions once their sizes are known.
use std::ops::Range;

use vstd::prelude::*;

verus! {

/// How many buckets one reader takes at most.
pub const MAX_BUCKETS_PER_TASK: usize = 64;

/// Why an exchange exists. A partition count alone cannot tell what a user asked for from what
/// the planner chose.
#[derive(Clone, Copy, Debug, PartialEq, Eq, Structural)]
pub enum ShuffleOrigin {
    UserRepartition,
    HashJoin,
    Aggregate,
    Distinct,
    Window,
}

impl ShuffleOrigin {
    /// Why the partitions of this exchange are left as they are, if they are.
    pub open spec fn skip_text(self, enabled: bool, flight: bool, in_join: bool) -> Option<Seq<char>> {
        if !enabled {
            Some("disabled"@)
        } else if self == ShuffleOrigin::HashJoin || in_join {
            Some("join_input"@)
        } else if self == ShuffleOrigin::UserRepartition {
            Some("user_partition_contract"@)
        } else if !flight {
            Some("unsupported_backend"@)
        } else if self == ShuffleOrigin::Window {
            Some("unsupported_operator"@)
        } else {
            None
        }
    }

    /// Why the partitions of this exchange are left as they are, if they are.
    pub fn skip_reason(self, enabled: bool, flight: bool, in_join: bool) -> (r: Option<&'static str>)
        ensures
            match r {
                Some(text) => self.skip_text(enabled, flight, in_join) == Some(text@),
                None => self.skip_text(enabled, flight, in_join) is None,
            },
    {
        if !enabled {
            Some("disabled")
        } else if self == ShuffleOrigin::HashJoin || in_join {
            Some("join_input")
        } else if self == ShuffleOrigin::UserRepartition {
            Some("user_partition_contract")
        } else if !flight {
            Some("unsupported_backend")
        } else if self == ShuffleOrigin::Window {
            Some("unsupported_operator")
        } else {
            None
        }
    }
}

/// The bytes in the buckets from `from` up to `to`.
pub open spec fn bytes_in(sizes: Seq<usize>, from: int, to: int) -> int
    decreases to - from,
{
    if to <= from {
        0
    } else {
        bytes_in(sizes, from, to - 1) + sizes[to - 1]
    }
}

/// Where a pass over buckets stands.
pub struct Grouping {
    /// The groups that are complete.
    pub done: Seq<Range<usize>>,
    /// Where the group at hand begins.
    pub start: int,
}

/// Whether bucket `n` begins a new group: it would exceed the target, or the group at hand is
/// full.
pub open spec fn begins_group(sizes: Seq<usize>, target: usize, start: int, n: int) -> bool {
    &&& n > start
    &&& {
        ||| sizes[n] > 0 && bytes_in(sizes, start, n) + sizes[n] > target
        ||| n - start == MAX_BUCKETS_PER_TASK
    }
}

/// The first `n` buckets in groups.
pub open spec fn grouping(sizes: Seq<usize>, target: usize, n: int) -> Grouping
    decreases n,
{
    if n <= 0 {
        Grouping { done: Seq::empty(), start: 0 }
    } else {
        let before = grouping(sizes, target, n - 1);
        if begins_group(sizes, target, before.start, n - 1) {
            Grouping {
                done: before.done.push(
                    Range { start: before.start as usize, end: (n - 1) as usize },
                ),
                start: n - 1,
            }
        } else {
            before
        }
    }
}

/// All buckets in groups.
pub open spec fn coalesced(sizes: Seq<usize>, target: usize) -> Seq<Range<usize>> {
    let g = grouping(sizes, target, sizes.len() as int);
    if g.start < sizes.len() {
        g.done.push(Range { start: g.start as usize, end: sizes.len() as usize })
    } else {
        g.done
    }
}

proof fn lemma_bytes_nonnegative(sizes: Seq<usize>, from: int, to: int)
    requires
        0 <= from,
        to <= sizes.len(),
    ensures
        bytes_in(sizes, from, to) >= 0,
    decreases to - from,
{
    if from < to {
        lemma_bytes_nonnegative(sizes, from, to - 1);
    }
}

/// Whether groups are ranges of buckets, one behind the other from the first bucket on, up to
/// `end`; none is empty and none is too long.
pub open spec fn tiles(groups: Seq<Range<usize>>, end: int) -> bool {
    &&& groups.len() == 0 ==> end == 0
    &&& groups.len() > 0 ==> groups[0].start == 0 && groups.last().end == end
    &&& forall|i: int|
        0 <= i < groups.len() ==> (#[trigger] groups[i]).start < groups[i].end && groups[i].end
            - groups[i].start <= MAX_BUCKETS_PER_TASK
    &&& forall|i: int, j: int|
        #![trigger groups[i], groups[j]]
        0 <= i && j == i + 1 && j < groups.len() ==> groups[i].end == groups[j].start
}

/// Whether a group of several buckets keeps to the target. Only a bucket that alone exceeds it
/// may; it stays whole, and at most empty buckets join it.
pub open spec fn within_target(sizes: Seq<usize>, target: usize, group: Range<usize>) -> bool {
    ||| bytes_in(sizes, group.start as int, group.end as int) <= target
    ||| sizes[group.start as int] > target && bytes_in(
        sizes,
        group.start as int,
        group.end as int,
    ) == sizes[group.start as int]
}

proof fn lemma_grouping(sizes: Seq<usize>, target: usize, n: int)
    requires
        0 <= n <= sizes.len() <= usize::MAX,
    ensures
        ({
            let g = grouping(sizes, target, n);
            &&& tiles(g.done, g.start)
            &&& 0 <= g.start <= n
            &&& n > 0 ==> g.start < n && n - g.start <= MAX_BUCKETS_PER_TASK
            &&& forall|i: int|
                0 <= i < g.done.len() ==> within_target(sizes, target, #[trigger] g.done[i])
            &&& n > 0 ==> within_target(
                sizes,
                target,
                Range { start: g.start as usize, end: n as usize },
            )
        }),
    decreases n,
{
    if n > 0 {
        lemma_grouping(sizes, target, n - 1);
        let b = grouping(sizes, target, n - 1);
        let g = grouping(sizes, target, n);
        lemma_bytes_nonnegative(sizes, b.start, n - 1);
        if begins_group(sizes, target, b.start, n - 1) {
            assert forall|i: int| 0 <= i < g.done.len() implies (#[trigger] g.done[i]).start
                < g.done[i].end && g.done[i].end - g.done[i].start <= MAX_BUCKETS_PER_TASK
                && within_target(sizes, target, g.done[i]) by {
                if i < b.done.len() {
                    assert(g.done[i] == b.done[i]);
                }
            }
            assert forall|i: int, j: int|
                #![trigger g.done[i], g.done[j]]
                0 <= i && j == i + 1 && j < g.done.len() implies g.done[i].end == g.done[j].start by {
                assert(g.done[i] == b.done[i]);
                if j < b.done.len() {
                    assert(g.done[j] == b.done[j]);
                } else {
                    assert(b.done[i] == b.done.last());
                }
            }
            if b.done.len() > 0 {
                assert(g.done[0] == b.done[0]);
            }
            assert(bytes_in(sizes, n - 1, n - 1) == 0);
            assert(bytes_in(sizes, n - 1, n) == sizes[n - 1]);
        } else if n - 1 == b.start {
            assert(bytes_in(sizes, n - 1, n - 1) == 0);
            assert(bytes_in(sizes, n - 1, n) == sizes[n - 1]);
        }
    }
}

/// Groups cover every bucket exactly once, in order; none has more buckets than a reader may
/// take; and a group keeps to the target unless its first bucket alone exceeds it.
pub proof fn coalescing_covers_all_buckets(sizes: Seq<usize>, target: usize)
    requires
        sizes.len() <= usize::MAX,
    ensures
        tiles(coalesced(sizes, target), sizes.len() as int),
        forall|i: int|
            0 <= i < coalesced(sizes, target).len() ==> within_target(
                sizes,
                target,
                #[trigger] coalesced(sizes, target)[i],
            ),
{
    let n = sizes.len() as int;
    lemma_grouping(sizes, target, n);
    let g = grouping(sizes, target, n);
    let c = coalesced(sizes, target);
    if n > 0 {
        assert forall|i: int| 0 <= i < c.len() implies (#[trigger] c[i]).start < c[i].end && c[i].end
            - c[i].start <= MAX_BUCKETS_PER_TASK && within_target(sizes, target, c[i]) by {
            if i < g.done.len() {
                assert(c[i] == g.done[i]);
            }
        }
        assert forall|i: int, j: int|
            #![trigger c[i], c[j]]
            0 <= i && j == i + 1 && j < c.len() implies c[i].end == c[j].start by {
            assert(c[i] == g.done[i]);
            if j < g.done.len() {
                assert(c[j] == g.done[j]);
            } else {
                assert(g.done[i] == g.done.last());
            }
        }
        if g.done.len() > 0 {
            assert(c[0] == g.done[0]);
        }
    }
}

/// Puts buckets, in order, into groups of at most `target` bytes. A bucket is never split:
/// that would change results.
pub fn coalesce_partitions(sizes: &[usize], target: usize) -> (groups: Vec<Range<usize>>)
    requires
        target > 0,
    ensures
        groups@ == coalesced(sizes@, target),
{
    let mut groups: Vec<Range<usize>> = Vec::new();
    let mut start: usize = 0;
    let mut bytes: usize = 0;
    let mut idx: usize = 0;
    while idx < sizes.len()
        invariant
            idx <= sizes@.len(),
            start <= idx,
            groups@ == grouping(sizes@, target, idx as int).done,
            start == grouping(sizes@, target, idx as int).start,
            bytes as int == (if bytes_in(sizes@, start as int, idx as int) <= usize::MAX {
                bytes_in(sizes@, start as int, idx as int)
            } else {
                usize::MAX as int
            }),
        decreases sizes@.len() - idx,
    {
        let size: usize = sizes[idx];
        proof {
            lemma_bytes_nonnegative(sizes@, start as int, idx as int);
            assert(bytes_in(sizes@, start as int, idx + 1) == bytes_in(
                sizes@,
                start as int,
                idx as int,
            ) + size);
            assert(bytes_in(sizes@, idx as int, idx as int) == 0);
            assert(bytes_in(sizes@, idx as int, idx + 1) == size);
        }
        if idx > start && (size > target.saturating_sub(bytes) || idx - start
            == MAX_BUCKETS_PER_TASK) {
            groups.push(Range { start, end: idx });
            start = idx;
            bytes = 0;
        }
        bytes = bytes.saturating_add(size);
        idx = idx + 1;
    }
    if start < sizes.len() {
        groups.push(Range { start, end: sizes.len() });
    }
    groups
}

/// The partitions of an exchange are merged exactly where merging is switched on, a flight
/// shuffle carries it, it feeds no join, and it is the planner's, for an aggregation or for
/// distinct rows. The first reason against it is the one that is told.
pub proof fn only_planner_exchanges_are_merged(
    origin: ShuffleOrigin,
    enabled: bool,
    flight: bool,
    in_join: bool,
)
    ensures
        origin.skip_text(enabled, flight, in_join) is None <==> enabled && flight && !in_join && (
        origin == ShuffleOrigin::Aggregate || origin == ShuffleOrigin::Distinct),
        !enabled ==> origin.skip_text(enabled, flight, in_join) == Some("disabled"@),
        enabled && (in_join || origin == ShuffleOrigin::HashJoin) ==> origin.skip_text(
            enabled,
            flight,
            in_join,
        ) == Some("join_input"@),
        enabled && !in_join && origin == ShuffleOrigin::UserRepartition ==> origin.skip_text(
            enabled,
            flight,
            in_join,
        ) == Some("user_partition_contract"@),
        enabled && !in_join && !flight && origin != ShuffleOrigin::UserRepartition && origin
            != ShuffleOrigin::HashJoin ==> origin.skip_text(enabled, flight, in_join) == Some(
            "unsupported_backend"@,
        ),
        enabled && !in_join && flight && origin == ShuffleOrigin::Window ==> origin.skip_text(
            enabled,
            flight,
            in_join,
        ) == Some("unsupported_operator"@),
{
}

/// The bytes of buckets are added up bucket by bucket.
pub proof fn bucket_sizes_add_up(sizes: Seq<usize>, from: int, mid: int, to: int)
    requires
        from <= mid <= to,
    ensures
        bytes_in(sizes, from, from) == 0,
        bytes_in(sizes, mid, mid + 1) == sizes[mid],
        bytes_in(sizes, from, to) == bytes_in(sizes, from, mid) + bytes_in(sizes, mid, to),
    decreases to - mid,
{
    assert(bytes_in(sizes, mid, mid) == 0);
    if mid < to {
        bucket_sizes_add_up(sizes, from, mid, to - 1);
    }
}

/// Groups cover every bucket exactly once and in order: the first begins with the first bucket,
/// each begins where the one before it ends, and the last ends with the last bucket. None is
/// empty, and none has more than 64 buckets.
pub proof fn groups_stand_side_by_side(sizes: Seq<usize>, target: usize, i: int)
    requires
        sizes.len() <= usize::MAX,
        0 <= i < coalesced(sizes, target).len(),
    ensures
        ({
            let groups = coalesced(sizes, target);
            &&& groups[0].start == 0
            &&& groups[groups.len() - 1].end == sizes.len()
            &&& groups[i].start < groups[i].end <= groups[i].start + 64
            &&& i + 1 < groups.len() ==> groups[i].end == groups[i + 1].start
        }),
{
    coalescing_covers_all_buckets(sizes, target);
    let groups = coalesced(sizes, target);
    let j = i + 1;
    assert(groups[i].start < groups[i].end);
    if j < groups.len() {
        assert(groups[j].start < groups[j].end);
    }
}

proof fn lemma_groups_are_full(sizes: Seq<usize>, target: usize, n: int, i: int)
    requires
        0 <= n <= sizes.len() <= usize::MAX,
        0 <= i < grouping(sizes, target, n).done.len(),
    ensures
        begins_group(
            sizes,
            target,
            grouping(sizes, target, n).done[i].start as int,
            grouping(sizes, target, n).done[i].end as int,
        ),
        grouping(sizes, target, n).done[i].end < sizes.len(),
    decreases n,
{
    if n > 0 {
        let before = grouping(sizes, target, n - 1);
        lemma_grouping(sizes, target, n - 1);
        if i < before.done.len() {
            lemma_groups_are_full(sizes, target, n - 1, i);
        }
    }
}

/// No group ends too early: the bucket behind it has rows to read and would take the group over
/// the target, or the group has 64 buckets.
pub proof fn groups_are_full(sizes: Seq<usize>, target: usize, i: int)
    requires
        sizes.len() <= usize::MAX,
        0 <= i < coalesced(sizes, target).len() - 1,
    ensures
        ({
            let group = coalesced(sizes, target)[i];
            let next = sizes[group.end as int];
            ||| next > 0 && bytes_in(sizes, group.start as int, group.end as int) + next > target
            ||| group.end - group.start == 64
        }),
{
    lemma_grouping(sizes, target, sizes.len() as int);
    let g = grouping(sizes, target, sizes.len() as int);
    assert(coalesced(sizes, target)[i] == g.done[i]);
    lemma_groups_are_full(sizes, target, sizes.len() as int, i);
}

/// No group takes too much: it keeps to the target, unless its first bucket alone exceeds it and
/// all others in it are empty.
pub proof fn groups_keep_to_the_target(sizes: Seq<usize>, target: usize, i: int)
    requires
        sizes.len() <= usize::MAX,
        0 <= i < coalesced(sizes, target).len(),
    ensures
        ({
            let group = coalesced(sizes, target)[i];
            let bytes = bytes_in(sizes, group.start as int, group.end as int);
            bytes <= target || (bytes == sizes[group.start as int])
        }),
{
    coalescing_covers_all_buckets(sizes, target);
}

} // verus!
