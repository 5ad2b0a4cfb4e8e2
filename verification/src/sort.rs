//! A stable sort on an integer key.
use vstd::prelude::*;

verus! {

/// A value that is ordered by an integer.
pub trait Keyed: Sized {
    /// The integer that the value is ordered by.
    spec fn spec_key(&self) -> int;

    /// Whether this value may stand before `other`: its key is not larger.
    fn not_after(&self, other: &Self) -> (b: bool)
        ensures
            b == (self.spec_key() <= other.spec_key()),
    ;
}

/// `s`, which is sorted, with `x` behind the last item that may stand before it.
pub open spec fn insert_sorted<T: Keyed>(s: Seq<T>, x: T) -> Seq<T>
    decreases s.len(),
{
    if s.len() == 0 || s.last().spec_key() <= x.spec_key() {
        s.push(x)
    } else {
        insert_sorted(s.drop_last(), x).push(s.last())
    }
}

/// The items of `s` in ascending order of their keys; items of equal keys keep their order.
pub open spec fn sorted<T: Keyed>(s: Seq<T>) -> Seq<T>
    decreases s.len(),
{
    if s.len() == 0 {
        s
    } else {
        insert_sorted(sorted(s.drop_last()), s.last())
    }
}

/// Whether keys never fall.
pub open spec fn is_sorted<T: Keyed>(s: Seq<T>) -> bool {
    forall|i: int, j: int|
        #![trigger s[i], s[j]]
        0 <= i <= j < s.len() ==> s[i].spec_key() <= s[j].spec_key()
}

proof fn lemma_insert_sorted_at<T: Keyed>(s: Seq<T>, x: T, at: int)
    requires
        0 <= at <= s.len(),
        at == 0 || s[at - 1].spec_key() <= x.spec_key(),
        forall|j: int| at <= j < s.len() ==> (#[trigger] s[j]).spec_key() > x.spec_key(),
    ensures
        insert_sorted(s, x) == s.insert(at, x),
    decreases s.len(),
{
    if at < s.len() {
        lemma_insert_sorted_at(s.drop_last(), x, at);
        assert(s.drop_last().insert(at, x).push(s.last()) =~= s.insert(at, x));
    } else {
        assert(s.push(x) =~= s.insert(at, x));
    }
}

/// Inserting into a sorted sequence keeps it sorted and adds exactly the new item.
pub proof fn insert_sorted_keeps_order<T: Keyed>(s: Seq<T>, x: T)
    requires
        is_sorted(s),
    ensures
        is_sorted(insert_sorted(s, x)),
        insert_sorted(s, x).to_multiset() == s.to_multiset().insert(x),
        insert_sorted(s, x).len() == s.len() + 1,
        forall|i: int|
            0 <= i < insert_sorted(s, x).len() ==> {
                ||| #[trigger] insert_sorted(s, x)[i] == x
                ||| s.contains(insert_sorted(s, x)[i])
            },
    decreases s.len(),
{
    broadcast use vstd::seq_lib::group_to_multiset_ensures;

    let r = insert_sorted(s, x);
    if s.len() == 0 || s.last().spec_key() <= x.spec_key() {
        assert forall|i: int| 0 <= i < r.len() implies {
            ||| #[trigger] r[i] == x
            ||| s.contains(r[i])
        } by {
            if i < s.len() {
                assert(s[i] == r[i]);
            }
        }
    } else {
        let t = s.drop_last();
        insert_sorted_keeps_order(t, x);
        let q = insert_sorted(t, x);
        assert(t.push(s.last()) =~= s);
        assert forall|i: int, j: int| #![trigger r[i], r[j]]
            0 <= i <= j < r.len() implies r[i].spec_key() <= r[j].spec_key() by {
            if i < q.len() {
                assert(q[i] == r[i]);
                if t.contains(q[i]) {
                    let k = choose|k: int| 0 <= k < t.len() && t[k] == q[i];
                    assert(s[k] == q[i]);
                    assert(s[s.len() - 1] == s.last());
                }
                if j < q.len() {
                    assert(q[j] == r[j]);
                }
            }
        }
        assert forall|i: int| 0 <= i < r.len() implies {
            ||| #[trigger] r[i] == x
            ||| s.contains(r[i])
        } by {
            if i < q.len() {
                assert(q[i] == r[i]);
                if t.contains(q[i]) {
                    let k = choose|k: int| 0 <= k < t.len() && t[k] == q[i];
                    assert(s[k] == r[i]);
                }
            } else {
                assert(s[s.len() - 1] == r[i]);
            }
        }
        assert(r.to_multiset() =~= s.to_multiset().insert(x));
    }
}

/// Sorting gives a sorted sequence of the same items.
pub proof fn sorted_is_sorted<T: Keyed>(s: Seq<T>)
    ensures
        is_sorted(sorted(s)),
        sorted(s).to_multiset() == s.to_multiset(),
        sorted(s).len() == s.len(),
    decreases s.len(),
{
    broadcast use vstd::seq_lib::group_to_multiset_ensures;

    if s.len() > 0 {
        sorted_is_sorted(s.drop_last());
        insert_sorted_keeps_order(sorted(s.drop_last()), s.last());
        assert(s.drop_last().push(s.last()) =~= s);
    }
}

/// What holds of every item holds of every item after sorting.
pub proof fn sorted_contains<T: Keyed>(s: Seq<T>)
    ensures
        forall|x: T| #[trigger] sorted(s).contains(x) <==> s.contains(x),
{
    sorted_is_sorted(s);
    assert forall|x: T| #[trigger] sorted(s).contains(x) <==> s.contains(x) by {
        s.to_multiset_ensures();
        sorted(s).to_multiset_ensures();
        assert(sorted(s).contains(x) <==> sorted(s).to_multiset().count(x) > 0);
        assert(s.contains(x) <==> s.to_multiset().count(x) > 0);
    }
}

/// A sorted sequence is left as it is.
pub proof fn sorted_of_sorted<T: Keyed>(s: Seq<T>)
    requires
        is_sorted(s),
    ensures
        sorted(s) == s,
    decreases s.len(),
{
    if s.len() > 0 {
        let t = s.drop_last();
        assert forall|i: int, j: int| #![trigger t[i], t[j]]
            0 <= i <= j < t.len() implies t[i].spec_key() <= t[j].spec_key() by {
            assert(t[i] == s[i] && t[j] == s[j]);
        }
        sorted_of_sorted(t);
        if t.len() > 0 {
            assert(t.last() == s[t.len() - 1]);
            assert(s[t.len() - 1].spec_key() <= s[s.len() - 1].spec_key());
        }
        assert(t.push(s.last()) =~= s);
    }
}

/// The items of a vector from the last to the first.
pub fn reversed<T>(items: Vec<T>) -> (out: Vec<T>)
    ensures
        out@.len() == items@.len(),
        forall|i: int| 0 <= i < out@.len() ==> #[trigger] out@[i] == items@[items@.len() - 1 - i],
{
    let ghost all = items@;
    let mut rest: Vec<T> = items;
    let mut out: Vec<T> = Vec::new();
    while rest.len() > 0
        invariant
            out@.len() + rest@.len() == all.len(),
            rest@ == all.take(rest@.len() as int),
            forall|i: int| 0 <= i < out@.len() ==> #[trigger] out@[i] == all[all.len() - 1 - i],
        decreases rest@.len(),
    {
        match rest.pop() {
            Some(x) => {
                out.push(x);
            },
            None => {},
        }
        assert(rest@ =~= all.take(rest@.len() as int));
    }
    out
}

/// Sorts by the key; items of equal keys keep their order.
pub fn sort<T: Keyed>(items: Vec<T>) -> (out: Vec<T>)
    ensures
        out@ == sorted(items@),
{
    let ghost all = items@;
    let mut stack: Vec<T> = reversed(items);
    let mut out: Vec<T> = Vec::new();
    assert(out@ =~= sorted(all.take(0)));
    while stack.len() > 0
        invariant
            stack@.len() <= all.len(),
            out@ == sorted(all.take(all.len() - stack@.len())),
            forall|i: int| 0 <= i < stack@.len() ==> #[trigger] stack@[i] == all[all.len() - 1 - i],
        decreases stack@.len(),
    {
        let ghost done = all.take(all.len() - stack@.len());
        match stack.pop() {
            Some(x) => {
                let mut at: usize = out.len();
                while at > 0 && !out[at - 1].not_after(&x)
                    invariant
                        at <= out@.len(),
                        forall|j: int| at <= j < out@.len() ==> (#[trigger] out@[j]).spec_key() > x.spec_key(),
                    decreases at,
                {
                    at = at - 1;
                }
                proof {
                    lemma_insert_sorted_at(out@, x, at as int);
                    assert(all.take(all.len() - stack@.len()).drop_last() =~= done);
                    assert(all.take(all.len() - stack@.len()).last() == x);
                }
                out.insert(at, x);
            },
            None => {},
        }
    }
    assert(all.take(all.len() as int) =~= all);
    out
}

/// Sorting is stable: the items of any one key come in the order in which they were given.
pub proof fn sorting_is_stable<T: Keyed>(s: Seq<T>, key: int)
    ensures
        sorted(s).filter(|x: T| x.spec_key() == key) == s.filter(|x: T| x.spec_key() == key),
    decreases s.len(),
{
    let of_key = |x: T| x.spec_key() == key;
    assert(sorted(s).filter(of_key) == s.filter(of_key)) by {
        lemma_sorted_filter(s, key, of_key);
    }
}

proof fn lemma_sorted_filter<T: Keyed>(s: Seq<T>, key: int, of_key: spec_fn(T) -> bool)
    requires
        forall|x: T| #[trigger] of_key(x) == (x.spec_key() == key),
    ensures
        sorted(s).filter(of_key) == s.filter(of_key),
    decreases s.len(),
{
    reveal(Seq::filter);
    if s.len() > 0 {
        lemma_sorted_filter(s.drop_last(), key, of_key);
        lemma_inserted_filter(sorted(s.drop_last()), s.last(), key, of_key);
    }
}

proof fn lemma_inserted_filter<T: Keyed>(s: Seq<T>, x: T, key: int, of_key: spec_fn(T) -> bool)
    requires
        forall|y: T| #[trigger] of_key(y) == (y.spec_key() == key),
    ensures
        insert_sorted(s, x).filter(of_key) == (if of_key(x) {
            s.filter(of_key).push(x)
        } else {
            s.filter(of_key)
        }),
    decreases s.len(),
{
    reveal(Seq::filter);
    let r = insert_sorted(s, x);
    if s.len() == 0 || s.last().spec_key() <= x.spec_key() {
        assert(r.drop_last() =~= s);
    } else {
        lemma_inserted_filter(s.drop_last(), x, key, of_key);
        assert(r.drop_last() =~= insert_sorted(s.drop_last(), x));
        assert(r.last() == s.last());
    }
}

} // verus!
