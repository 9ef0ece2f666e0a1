//! Stable sorting by an integer key.

use vstd::prelude::*;

verus! {

/// `s` with `x` put behind the last element whose key does not exceed its own.
pub open spec fn inserted<A>(s: Seq<A>, x: A, key: spec_fn(A) -> int) -> Seq<A>
    decreases s.len(),
{
    if s.len() == 0 {
        seq![x]
    } else if key(s.last()) <= key(x) {
        s.push(x)
    } else {
        inserted(s.drop_last(), x, key).push(s.last())
    }
}

/// The elements of `s` in ascending order of their keys; elements with the same
/// key keep their order.
pub open spec fn sorted_by<A>(s: Seq<A>, key: spec_fn(A) -> int) -> Seq<A>
    decreases s.len(),
{
    if s.len() == 0 {
        s
    } else {
        inserted(sorted_by(s.drop_last(), key), s.last(), key)
    }
}

/// Whether the keys of `s` ascend.
pub open spec fn ascending<A>(s: Seq<A>, key: spec_fn(A) -> int) -> bool {
    forall|i: int, j: int| 0 <= i <= j < s.len() ==> key(#[trigger] s[i]) <= key(#[trigger] s[j])
}

/// The elements of `s` with the key `k`, in order.
pub open spec fn with_key<A>(s: Seq<A>, key: spec_fn(A) -> int, k: int) -> Seq<A>
    decreases s.len(),
{
    if s.len() == 0 {
        s
    } else if key(s.last()) == k {
        with_key(s.drop_last(), key, k).push(s.last())
    } else {
        with_key(s.drop_last(), key, k)
    }
}

/// Inserting puts `x` at the place that separates what stays before it from
/// what comes after it.
pub proof fn lemma_inserted_at<A>(s: Seq<A>, x: A, key: spec_fn(A) -> int, at: int)
    requires
        0 <= at <= s.len(),
        forall|i: int| at <= i < s.len() ==> key(#[trigger] s[i]) > key(x),
        at > 0 ==> key(s[at - 1]) <= key(x),
    ensures
        inserted(s, x, key) == s.insert(at, x),
    decreases s.len(),
{
    if s.len() == 0 {
        assert(s.insert(at, x) =~= seq![x]);
    } else if at == s.len() {
        assert(s.insert(at, x) =~= s.push(x));
    } else {
        lemma_inserted_at(s.drop_last(), x, key, at);
        assert(s.drop_last().insert(at, x).push(s.last()) =~= s.insert(at, x));
    }
}

proof fn lemma_inserted<A>(s: Seq<A>, x: A, key: spec_fn(A) -> int)
    requires
        ascending(s, key),
    ensures
        ascending(inserted(s, x, key), key),
        inserted(s, x, key).to_multiset() == s.to_multiset().insert(x),
        inserted(s, x, key).len() == s.len() + 1,
        forall|k: int|
            #[trigger] with_key(inserted(s, x, key), key, k) == if key(x) == k {
                with_key(s, key, k).push(x)
            } else {
                with_key(s, key, k)
            },
    decreases s.len(),
{
    broadcast use vstd::seq_lib::group_to_multiset_ensures;

    if s.len() == 0 {
        assert(seq![x] =~= s.push(x));
        assert(seq![x].drop_last() =~= s);
        assert(s =~= Seq::<A>::empty());
        assert forall|k: int| #[trigger] with_key(inserted(s, x, key), key, k) == if key(x) == k {
            with_key(s, key, k).push(x)
        } else {
            with_key(s, key, k)
        } by {
            assert(with_key(seq![x].drop_last(), key, k) == s);
        }
    } else if key(s.last()) <= key(x) {
        assert(s.push(x).drop_last() =~= s);
    } else {
        let front = s.drop_last();
        lemma_inserted(front, x, key);
        let rest = inserted(front, x, key);
        assert(rest.push(s.last()).drop_last() =~= rest);
        assert(front.push(s.last()) =~= s);
        assert(s.to_multiset() =~= front.to_multiset().insert(s.last()));
        assert(front.to_multiset().insert(x).insert(s.last()) =~= front.to_multiset().insert(
            s.last(),
        ).insert(x));
        assert forall|i: int, j: int|
            0 <= i <= j < rest.push(s.last()).len() implies key(
            #[trigger] rest.push(s.last())[i],
        ) <= key(#[trigger] rest.push(s.last())[j]) by {
            if j == rest.len() && i < j {
                let y = rest[i];
                assert(rest.to_multiset().count(y) > 0) by {
                    assert(rest.contains(y));
                }
                if y != x {
                    assert(front.to_multiset().count(y) > 0);
                    assert(front.contains(y));
                    let m = choose|m: int| 0 <= m < front.len() && front[m] == y;
                    assert(s[m] == y);
                    assert(key(s[m]) <= key(s[s.len() - 1]));
                }
            }
        }
        assert forall|k: int| #[trigger] with_key(inserted(s, x, key), key, k) == if key(x) == k {
            with_key(s, key, k).push(x)
        } else {
            with_key(s, key, k)
        } by {
            assert(with_key(rest, key, k) == if key(x) == k {
                with_key(front, key, k).push(x)
            } else {
                with_key(front, key, k)
            });
            if key(s.last()) == k {
                assert(key(x) != k);
            }
        }
    }
}

/// Sorting orders by key, keeps every element, and keeps elements with the same
/// key in the order they had.
pub proof fn sorting_is_stable<A>(s: Seq<A>, key: spec_fn(A) -> int)
    ensures
        ascending(sorted_by(s, key), key),
        sorted_by(s, key).to_multiset() == s.to_multiset(),
        sorted_by(s, key).len() == s.len(),
        forall|k: int| #[trigger] with_key(sorted_by(s, key), key, k) == with_key(s, key, k),
    decreases s.len(),
{
    broadcast use vstd::seq_lib::group_to_multiset_ensures;

    if s.len() > 0 {
        sorting_is_stable(s.drop_last(), key);
        lemma_inserted(sorted_by(s.drop_last(), key), s.last(), key);
        assert(s.drop_last().push(s.last()) =~= s);
    }
}

proof fn lemma_inserted_somewhere<A>(s: Seq<A>, x: A, key: spec_fn(A) -> int) -> (at: int)
    requires
        ascending(s, key),
    ensures
        0 <= at <= s.len(),
        inserted(s, x, key) == s.insert(at, x),
        forall|i: int| 0 <= i < at ==> key(#[trigger] s[i]) <= key(x),
        forall|i: int| at <= i < s.len() ==> key(#[trigger] s[i]) > key(x),
    decreases s.len(),
{
    if s.len() == 0 {
        assert(s.insert(0, x) =~= seq![x]);
        0
    } else if key(s.last()) <= key(x) {
        assert(s.insert(s.len() as int, x) =~= s.push(x));
        assert forall|i: int| 0 <= i < s.len() implies key(#[trigger] s[i]) <= key(x) by {
            assert(key(s[i]) <= key(s[s.len() - 1]));
        }
        s.len() as int
    } else {
        let front = s.drop_last();
        let at = lemma_inserted_somewhere(front, x, key);
        assert(front.insert(at, x).push(s.last()) =~= s.insert(at, x));
        assert forall|i: int| 0 <= i < at implies key(#[trigger] s[i]) <= key(x) by {
            assert(s[i] == front[i]);
        }
        assert forall|i: int| at <= i < s.len() implies key(#[trigger] s[i]) > key(x) by {
            if i < front.len() {
                assert(s[i] == front[i]);
            }
        }
        at
    }
}

/// Whether `t` holds exactly the elements of `s`, each taken from the index that
/// `from` gives, by ascending keys and, where the keys are the same, by ascending
/// index.
pub open spec fn rearranged<A>(
    t: Seq<A>,
    s: Seq<A>,
    key: spec_fn(A) -> int,
    from: Seq<int>,
) -> bool {
    &&& t.len() == s.len()
    &&& from.len() == s.len()
    &&& forall|i: int|
        0 <= i < from.len() ==> 0 <= #[trigger] from[i] < s.len() && t[i] == s[from[i]]
    &&& forall|i: int, j: int|
        0 <= i < j < from.len() ==> {
            ||| key(s[#[trigger] from[i]]) < key(s[#[trigger] from[j]])
            ||| key(s[from[i]]) == key(s[from[j]]) && from[i] < from[j]
        }
    &&& forall|k: int| 0 <= k < s.len() ==> #[trigger] from.contains(k)
}

/// Sorting only rearranges, and says for each element where it came from.
pub proof fn sorting_rearranges<A>(s: Seq<A>, key: spec_fn(A) -> int) -> (from: Seq<int>)
    ensures
        rearranged(sorted_by(s, key), s, key, from),
    decreases s.len(),
{
    if s.len() == 0 {
        Seq::empty()
    } else {
        let front = s.drop_last();
        let n = front.len() as int;
        let sorted = sorted_by(front, key);
        let q = sorting_rearranges(front, key);
        sorting_is_stable(front, key);
        let at = lemma_inserted_somewhere(sorted, s.last(), key);
        let p = q.insert(at, n);
        let t = sorted_by(s, key);
        assert(s[n] == s.last());
        assert forall|i: int| 0 <= i < p.len() implies 0 <= #[trigger] p[i] < s.len() && t[i]
            == s[p[i]] by {
            if i < at {
                assert(p[i] == q[i]);
            } else if i > at {
                assert(p[i] == q[i - 1]);
            }
        }
        assert forall|i: int, j: int| 0 <= i < j < p.len() implies {
            ||| key(s[#[trigger] p[i]]) < key(s[#[trigger] p[j]])
            ||| key(s[p[i]]) == key(s[p[j]]) && p[i] < p[j]
        } by {
            let i0 = if i < at {
                i
            } else {
                i - 1
            };
            let j0 = if j < at {
                j
            } else {
                j - 1
            };
            if i != at && j != at {
                assert(p[i] == q[i0] && p[j] == q[j0]);
                assert(front[q[i0]] == s[p[i]] && front[q[j0]] == s[p[j]]);
            } else if i == at {
                assert(p[j] == q[j0]);
                assert(sorted[j0] == front[q[j0]]);
                assert(key(sorted[j0]) > key(s.last()));
            } else {
                assert(p[i] == q[i0]);
                assert(sorted[i0] == front[q[i0]]);
                assert(key(sorted[i0]) <= key(s.last()));
            }
        }
        assert forall|k: int| 0 <= k < s.len() implies #[trigger] p.contains(k) by {
            if k == n {
                assert(p[at] == k);
            } else {
                assert(q.contains(k));
                let m = choose|m: int| 0 <= m < q.len() && q[m] == k;
                if m < at {
                    assert(p[m] == k);
                } else {
                    assert(p[m + 1] == k);
                }
            }
        }
        p
    }
}

} // verus!
