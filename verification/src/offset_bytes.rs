//! Fetched bytes of a column, addressed by their place in the file.
use bytes::Bytes;
use vstd::prelude::*;

use crate::sort::{is_sorted, sort, sorted, sorted_is_sorted, Keyed};
use crate::text::{decimal, owned, push_decimal};

verus! {

/// The byte buffers of the `bytes` crate.
#[verifier::external_type_specification]
#[verifier::external_body]
pub struct ExBytes(bytes::Bytes);

/// The bytes that a buffer holds.
pub uninterp spec fn content(buffer: bytes::Bytes) -> Seq<u8>;

/// Calls `bytes::Bytes::new`: a buffer that holds nothing.
#[verifier::external_body]
fn empty_bytes() -> (b: Bytes)
    ensures
        content(b) == Seq::<u8>::empty(),
{
    Bytes::new()
}

/// Calls `bytes::Bytes::len`: how many bytes the buffer holds.
#[verifier::external_body]
pub(crate) fn bytes_len(buffer: &Bytes) -> (n: usize)
    ensures
        n == content(*buffer).len(),
{
    buffer.len()
}

/// Calls `bytes::Bytes::slice` on the bytes from `from` up to `to`: a buffer that holds those
/// bytes. The crate panics where they do not lie in the buffer.
#[verifier::external_body]
pub(crate) fn bytes_slice(buffer: &Bytes, from: usize, to: usize) -> (b: Bytes)
    requires
        from <= to <= content(*buffer).len(),
    ensures
        content(b) == content(*buffer).subrange(from as int, to as int),
{
    buffer.slice(from..to)
}

/// A piece of a file: its bytes, and where they begin.
pub struct Fragment {
    pub offset: u64,
    pub bytes: Bytes,
}

impl Keyed for Fragment {
    open spec fn spec_key(&self) -> int {
        self.offset as int
    }

    fn not_after(&self, other: &Self) -> (b: bool) {
        self.offset <= other.offset
    }
}

/// Why bytes cannot be handed out.
#[derive(Clone, Copy, Debug, PartialEq, Eq, Structural)]
pub enum ChunkError {
    /// No piece that was fetched begins at or before this place.
    NotFetched { start: u64 },
    InvalidReadStart { start: u64, base: u64 },
    ReadPastEnd { start: u64, local: usize, len: usize },
    InvalidBytesStart { start: u64, base: u64 },
    OffsetOverflow,
    BytesPastEnd { local: usize, end: usize, len: usize },
}

impl ChunkError {
    /// The text of the error.
    pub open spec fn text(self) -> Seq<char> {
        match self {
            ChunkError::NotFetched { start } => "Parquet byte offset "@ + decimal(start as nat)
                + " was not fetched"@,
            ChunkError::InvalidReadStart { start, base } =>
                "OffsetBytes::get_read: invalid start "@ + decimal(start as nat)
                + " relative to base "@ + decimal(base as nat),
            ChunkError::ReadPastEnd { start, local, len } => "OffsetBytes::get_read: start "@
                + decimal(start as nat) + " past chunk end (local "@ + decimal(local as nat)
                + " > len "@ + decimal(len as nat) + ")"@,
            ChunkError::InvalidBytesStart { start, base } =>
                "OffsetBytes::get_bytes: invalid start "@ + decimal(start as nat)
                + " relative to base "@ + decimal(base as nat),
            ChunkError::OffsetOverflow => "OffsetBytes::get_bytes: offset overflow"@,
            ChunkError::BytesPastEnd { local, end, len } => "OffsetBytes::get_bytes: range "@
                + decimal(local as nat) + ".."@ + decimal(end as nat) + " past chunk end (len "@
                + decimal(len as nat) + ")"@,
        }
    }

    /// The text of the error.
    pub fn message(&self) -> (s: String)
        ensures
            s@ == self.text(),
    {
        match *self {
            ChunkError::NotFetched { start } => {
                let mut s: String = owned("Parquet byte offset ");
                push_decimal(&mut s, start);
                s.append(" was not fetched");
                s
            },
            ChunkError::InvalidReadStart { start, base } => {
                let mut s: String = owned("OffsetBytes::get_read: invalid start ");
                push_decimal(&mut s, start);
                s.append(" relative to base ");
                push_decimal(&mut s, base);
                s
            },
            ChunkError::ReadPastEnd { start, local, len } => {
                let mut s: String = owned("OffsetBytes::get_read: start ");
                push_decimal(&mut s, start);
                s.append(" past chunk end (local ");
                push_decimal(&mut s, local as u64);
                s.append(" > len ");
                push_decimal(&mut s, len as u64);
                s.append(")");
                s
            },
            ChunkError::InvalidBytesStart { start, base } => {
                let mut s: String = owned("OffsetBytes::get_bytes: invalid start ");
                push_decimal(&mut s, start);
                s.append(" relative to base ");
                push_decimal(&mut s, base);
                s
            },
            ChunkError::OffsetOverflow => owned("OffsetBytes::get_bytes: offset overflow"),
            ChunkError::BytesPastEnd { local, end, len } => {
                let mut s: String = owned("OffsetBytes::get_bytes: range ");
                push_decimal(&mut s, local as u64);
                s.append("..");
                push_decimal(&mut s, end as u64);
                s.append(" past chunk end (len ");
                push_decimal(&mut s, len as u64);
                s.append(")");
                s
            },
        }
    }
}

/// The contiguous bytes of a column chunk, or the pieces of it that were fetched.
pub struct OffsetBytes {
    pub base: u64,
    pub file_len: u64,
    pub bytes: Bytes,
    pub fragments: Option<Vec<Fragment>>,
}

/// How many of ascending fragments begin at or before `start`.
pub open spec fn begun(fragments: Seq<Fragment>, start: u64) -> int
    decreases fragments.len(),
{
    if fragments.len() == 0 {
        0
    } else if fragments.last().offset <= start {
        fragments.len() as int
    } else {
        begun(fragments.drop_last(), start)
    }
}

proof fn lemma_begun(fragments: Seq<Fragment>, start: u64, at: int)
    requires
        0 <= at <= fragments.len(),
        at == 0 || fragments[at - 1].offset <= start,
        forall|i: int| at <= i < fragments.len() ==> (#[trigger] fragments[i]).offset > start,
    ensures
        begun(fragments, start) == at,
    decreases fragments.len(),
{
    if at < fragments.len() {
        lemma_begun(fragments.drop_last(), start, at);
    }
}

impl OffsetBytes {
    /// Fragments ascend.
    pub open spec fn wf(&self) -> bool {
        self.fragments matches Some(fragments) ==> is_sorted(fragments@)
    }

    /// The piece that can hold the byte at `start`: the last one that begins at or before it.
    pub open spec fn window_spec(&self, start: u64) -> Option<(u64, Bytes)> {
        match self.fragments {
            None => Some((self.base, self.bytes)),
            Some(fragments) => {
                let n = begun(fragments@, start);
                if n == 0 {
                    None
                } else {
                    Some((fragments@[n - 1].offset, fragments@[n - 1].bytes))
                }
            },
        }
    }

    /// The contiguous bytes of a chunk that begins at `base`.
    pub fn contiguous(base: u64, file_len: u64, bytes: Bytes) -> (o: OffsetBytes)
        ensures
            o.wf(),
            o.base == base,
            o.file_len == file_len,
            o.bytes == bytes,
            o.fragments is None,
    {
        OffsetBytes { base, file_len, bytes, fragments: None }
    }

    /// Pieces of a chunk, in any order.
    pub fn from_fragments(file_len: u64, fragments: Vec<Fragment>) -> (o: OffsetBytes)
        ensures
            o.wf(),
            o.base == 0,
            o.file_len == file_len,
            content(o.bytes) == Seq::<u8>::empty(),
            o.fragments is Some,
            o.fragments->0@ == sorted(fragments@),
    {
        proof {
            sorted_is_sorted(fragments@);
        }
        OffsetBytes { base: 0, file_len, bytes: empty_bytes(), fragments: Some(sort(fragments)) }
    }

    /// The length of the whole file.
    pub fn len(&self) -> (n: u64)
        ensures
            n == self.file_len,
    {
        self.file_len
    }

    /// The piece that can hold the byte at `start`.
    pub fn window(&self, start: u64) -> (r: Result<(u64, &Bytes), ChunkError>)
        requires
            self.wf(),
        ensures
            match self.window_spec(start) {
                Some(w) => r matches Ok(got) && got.0 == w.0 && *got.1 == w.1,
                None => r == Err::<(u64, &Bytes), ChunkError>(ChunkError::NotFetched { start }),
            },
    {
        match &self.fragments {
            None => Ok((self.base, &self.bytes)),
            Some(fragments) => {
                let mut low: usize = 0;
                let mut high: usize = fragments.len();
                while low < high
                    invariant
                        low <= high <= fragments@.len(),
                        is_sorted(fragments@),
                        low == 0 || fragments@[low - 1].offset <= start,
                        forall|i: int|
                            high <= i < fragments@.len() ==> (#[trigger] fragments@[i]).offset > start,
                    decreases high - low,
                {
                    let middle: usize = low + (high - low) / 2;
                    if fragments[middle].offset <= start {
                        low = middle + 1;
                    } else {
                        assert forall|i: int| middle <= i < fragments@.len() implies (
                        #[trigger] fragments@[i]).offset > start by {
                            assert(fragments@[middle as int].spec_key() <= fragments@[i].spec_key());
                        }
                        high = middle;
                    }
                }
                proof {
                    lemma_begun(fragments@, start, low as int);
                }
                if low == 0 {
                    Err(ChunkError::NotFetched { start })
                } else {
                    Ok((fragments[low - 1].offset, &fragments[low - 1].bytes))
                }
            },
        }
    }

    /// What is fetched from `start` on, up to the end of the piece that holds it.
    pub fn get_read(&self, start: u64) -> (r: Result<Bytes, ChunkError>)
        requires
            self.wf(),
        ensures
            match self.window_spec(start) {
                None => r == Err::<Bytes, ChunkError>(ChunkError::NotFetched { start }),
                Some((base, bytes)) => if start < base || start - base > usize::MAX {
                    r == Err::<Bytes, ChunkError>(ChunkError::InvalidReadStart { start, base })
                } else if start - base > content(bytes).len() {
                    r == Err::<Bytes, ChunkError>(
                        ChunkError::ReadPastEnd {
                            start,
                            local: (start - base) as usize,
                            len: content(bytes).len() as usize,
                        },
                    )
                } else {
                    r matches Ok(b) && content(b) == content(bytes).skip(start - base)
                },
            },
    {
        let (base, bytes): (u64, &Bytes) = match self.window(start) {
            Ok(window) => window,
            Err(e) => {
                return Err(e);
            },
        };
        if start < base || start - base > usize::MAX as u64 {
            return Err(ChunkError::InvalidReadStart { start, base });
        }
        let local: usize = (start - base) as usize;
        let len: usize = bytes_len(bytes);
        if local > len {
            return Err(ChunkError::ReadPastEnd { start, local, len });
        }
        let rest: Bytes = bytes_slice(bytes, local, len);
        assert(content(rest) =~= content(*bytes).skip(local as int));
        Ok(rest)
    }

    /// The `length` bytes from `start` on.
    pub fn get_bytes(&self, start: u64, length: usize) -> (r: Result<Bytes, ChunkError>)
        requires
            self.wf(),
        ensures
            match self.window_spec(start) {
                None => r == Err::<Bytes, ChunkError>(ChunkError::NotFetched { start }),
                Some((base, bytes)) => if start < base || start - base > usize::MAX {
                    r == Err::<Bytes, ChunkError>(ChunkError::InvalidBytesStart { start, base })
                } else if start - base + length > usize::MAX {
                    r == Err::<Bytes, ChunkError>(ChunkError::OffsetOverflow)
                } else if start - base + length > content(bytes).len() {
                    r == Err::<Bytes, ChunkError>(
                        ChunkError::BytesPastEnd {
                            local: (start - base) as usize,
                            end: (start - base + length) as usize,
                            len: content(bytes).len() as usize,
                        },
                    )
                } else {
                    r matches Ok(b) && content(b) == content(bytes).subrange(
                        start - base,
                        start - base + length,
                    )
                },
            },
    {
        let (base, bytes): (u64, &Bytes) = match self.window(start) {
            Ok(window) => window,
            Err(e) => {
                return Err(e);
            },
        };
        if start < base || start - base > usize::MAX as u64 {
            return Err(ChunkError::InvalidBytesStart { start, base });
        }
        let local: usize = (start - base) as usize;
        let end: usize = match local.checked_add(length) {
            Some(end) => end,
            None => {
                return Err(ChunkError::OffsetOverflow);
            },
        };
        let len: usize = bytes_len(bytes);
        if end > len {
            return Err(ChunkError::BytesPastEnd { local, end, len });
        }
        Ok(bytes_slice(bytes, local, end))
    }
}

/// Whether fragments ascend without overlapping.
pub open spec fn disjoint(fragments: Seq<Fragment>) -> bool {
    forall|i: int, j: int|
        #![trigger fragments[i], fragments[j]]
        0 <= i < j < fragments.len() ==> fragments[i].offset + content(fragments[i].bytes).len()
            <= fragments[j].offset && fragments[i].offset < fragments[j].offset
}

/// What was fetched is read back: in a column whose pieces do not overlap, the piece that can
/// hold a fetched byte is the one that does.
pub proof fn fetched_bytes_are_found(o: OffsetBytes, i: int, start: u64)
    requires
        o.fragments is Some,
        disjoint(o.fragments->0@),
        0 <= i < o.fragments->0@.len(),
        o.fragments->0@[i].offset <= start < o.fragments->0@[i].offset + content(
            o.fragments->0@[i].bytes,
        ).len(),
    ensures
        o.window_spec(start) == Some((o.fragments->0@[i].offset, o.fragments->0@[i].bytes)),
{
    let fragments = o.fragments->0@;
    assert forall|j: int| i + 1 <= j < fragments.len() implies (#[trigger] fragments[j]).offset
        > start by {
        assert(fragments[i].offset + content(fragments[i].bytes).len() <= fragments[j].offset);
    }
    lemma_begun(fragments, start, i + 1);
}

/// A byte between or before the pieces is never handed out: the piece that can hold it ends
/// at or before it, or there is none.
pub proof fn gaps_are_not_found(o: OffsetBytes, start: u64)
    requires
        o.fragments is Some,
        disjoint(o.fragments->0@),
        forall|i: int|
            0 <= i < o.fragments->0@.len() ==> !((#[trigger] o.fragments->0@[i]).offset <= start
                < o.fragments->0@[i].offset + content(o.fragments->0@[i].bytes).len()),
    ensures
        o.window_spec(start) matches Some((base, bytes)) ==> base + content(bytes).len() <= start,
{
    let fragments = o.fragments->0@;
    lemma_begun_range(fragments, start);
    let n = begun(fragments, start);
    if n > 0 {
        assert(fragments[n - 1].offset <= start);
    }
}

proof fn lemma_begun_range(fragments: Seq<Fragment>, start: u64)
    ensures
        0 <= begun(fragments, start) <= fragments.len(),
        begun(fragments, start) > 0 ==> fragments[begun(fragments, start) - 1].offset <= start,
    decreases fragments.len(),
{
    if fragments.len() > 0 && fragments.last().offset > start {
        lemma_begun_range(fragments.drop_last(), start);
    }
}

/// The order in which pieces arrive makes no difference: sorted pieces of different places
/// are the same whatever order they came in.
pub proof fn arrival_order_is_irrelevant(a: Seq<Fragment>, b: Seq<Fragment>)
    requires
        a.to_multiset() == b.to_multiset(),
        forall|i: int, j: int|
            #![trigger a[i], a[j]]
            0 <= i < j < a.len() ==> a[i].offset != a[j].offset,
    ensures
        sorted(a) == sorted(b),
{
    sorted_is_sorted(a);
    sorted_is_sorted(b);
    crate::sort::sorted_contains(a);
    let x = sorted(a);
    let y = sorted(b);
    x.to_multiset_ensures();
    y.to_multiset_ensures();
    a.to_multiset_ensures();
    assert(x.len() == x.to_multiset().len());
    assert(y.len() == y.to_multiset().len());
    assert forall|p: Fragment| x.to_multiset().count(p) <= 1 by {
        lemma_distinct_count(a, p);
    }
    assert forall|i: int, j: int|
        #![trigger x[i], x[j]]
        0 <= i < x.len() && 0 <= j < x.len() && x[i].offset == x[j].offset implies x[i] == x[j] by {
        lemma_distinct_count(a, x[i]);
        assert(x.contains(x[i]) && x.contains(x[j]));
        assert(a.to_multiset().count(x[i]) > 0 && a.to_multiset().count(x[j]) > 0);
    }
    lemma_sorted_unique(x, y);
}

proof fn lemma_distinct_count(a: Seq<Fragment>, p: Fragment)
    requires
        forall|i: int, j: int|
            #![trigger a[i], a[j]]
            0 <= i < j < a.len() ==> a[i].offset != a[j].offset,
    ensures
        a.to_multiset().count(p) <= 1,
        forall|q: Fragment|
            a.to_multiset().count(p) > 0 && #[trigger] a.to_multiset().count(q) > 0 && p.offset
                == q.offset ==> p == q,
{
    a.to_multiset_ensures();
    assert(a.no_duplicates());
    a.lemma_multiset_has_no_duplicates();
    if a.to_multiset().count(p) > 0 {
        assert(a.to_multiset().contains(p));
    }
    assert forall|q: Fragment|
        a.to_multiset().count(p) > 0 && #[trigger] a.to_multiset().count(q) > 0 && p.offset
            == q.offset implies p == q by {
        assert(a.contains(p) && a.contains(q));
        let i = choose|i: int| 0 <= i < a.len() && a[i] == p;
        let j = choose|j: int| 0 <= j < a.len() && a[j] == q;
        if i < j {
            assert(a[i].offset != a[j].offset);
        } else if j < i {
            assert(a[j].offset != a[i].offset);
        }
    }
}

proof fn lemma_sorted_unique(x: Seq<Fragment>, y: Seq<Fragment>)
    requires
        is_sorted(x),
        is_sorted(y),
        x.to_multiset() == y.to_multiset(),
        x.len() == y.len(),
        forall|p: Fragment| #[trigger] x.to_multiset().count(p) <= 1,
        forall|i: int, j: int|
            #![trigger x[i], x[j]]
            0 <= i < x.len() && 0 <= j < x.len() && x[i].offset == x[j].offset ==> x[i] == x[j],
    ensures
        x == y,
    decreases x.len(),
{
    x.to_multiset_ensures();
    y.to_multiset_ensures();
    if x.len() > 0 {
        let n = x.len() - 1;
        assert(x.contains(x[n]) && y.contains(y[n]));
        assert(y.to_multiset().count(x[n]) > 0 && x.to_multiset().count(y[n]) > 0);
        assert(y.contains(x[n]) && x.contains(y[n]));
        let i = choose|i: int| 0 <= i < y.len() && y[i] == x[n];
        let j = choose|j: int| 0 <= j < x.len() && x[j] == y[n];
        assert(y[i].spec_key() <= y[n].spec_key());
        assert(x[j].spec_key() <= x[n].spec_key());
        assert(x[j] == x[n]);
        let xs = x.drop_last();
        let ys = y.drop_last();
        assert(x =~= xs.push(x[n]));
        assert(y =~= ys.push(y[n]));
        xs.to_multiset_ensures();
        ys.to_multiset_ensures();
        assert(xs.to_multiset() =~= x.to_multiset().remove(x[n]));
        assert(ys.to_multiset() =~= y.to_multiset().remove(y[n]));
        assert forall|a: int, b: int| #![trigger xs[a], xs[b]]
            0 <= a <= b < xs.len() implies xs[a].spec_key() <= xs[b].spec_key() by {
            assert(xs[a] == x[a] && xs[b] == x[b]);
        }
        assert forall|a: int, b: int| #![trigger ys[a], ys[b]]
            0 <= a <= b < ys.len() implies ys[a].spec_key() <= ys[b].spec_key() by {
            assert(ys[a] == y[a] && ys[b] == y[b]);
        }
        assert forall|a: int, b: int| #![trigger xs[a], xs[b]]
            0 <= a < xs.len() && 0 <= b < xs.len() && xs[a].offset == xs[b].offset implies xs[a]
            == xs[b] by {
            assert(xs[a] == x[a] && xs[b] == x[b]);
        }
        assert forall|p: Fragment| #[trigger] xs.to_multiset().count(p) <= 1 by {
            assert(x.to_multiset().count(p) <= 1);
        }
        lemma_sorted_unique(xs, ys);
    } else {
        assert(x =~= y);
    }
}

/// The piece that can hold a byte is the last one that begins at or before it; there is none
/// where every piece begins behind it. Contiguous bytes are one such piece.
pub proof fn windows_begin_before_what_they_hold(o: OffsetBytes, start: u64)
    requires
        o.wf(),
    ensures
        o.fragments is None ==> o.window_spec(start) == Some((o.base, o.bytes)),
        o.fragments matches Some(fragments) ==> {
            &&& o.window_spec(start) is None <==> forall|i: int|
                0 <= i < fragments@.len() ==> (#[trigger] fragments@[i]).offset > start
            &&& o.window_spec(start) matches Some((base, bytes)) ==> exists|i: int|
                0 <= i < fragments@.len() && (#[trigger] fragments@[i]).offset == base
                    && fragments@[i].bytes == bytes && base <= start && forall|j: int|
                    i < j < fragments@.len() ==> (#[trigger] fragments@[j]).offset > start
        },
{
    if o.fragments is Some {
        let fragments = o.fragments->0@;
        lemma_begun_range(fragments, start);
        lemma_behind_begun(fragments, start);
        let n = begun(fragments, start);
        if n > 0 {
            assert(fragments[n - 1].offset <= start);
        }
    }
}

proof fn lemma_behind_begun(fragments: Seq<Fragment>, start: u64)
    ensures
        forall|i: int|
            begun(fragments, start) <= i < fragments.len() ==> (#[trigger] fragments[i]).offset
                > start,
    decreases fragments.len(),
{
    if fragments.len() > 0 && fragments.last().offset > start {
        let before = fragments.drop_last();
        lemma_behind_begun(before, start);
        lemma_begun_range(before, start);
        assert forall|i: int| begun(fragments, start) <= i < fragments.len() implies (
        #[trigger] fragments[i]).offset > start by {
            if i < before.len() {
                assert(before[i] == fragments[i]);
            }
        }
    }
}

} // verus!
