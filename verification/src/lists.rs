//! Looking things up in sequences.

use vstd::prelude::*;

verus! {

/// The first index from `k` on at which `p` holds, or the length.
pub open spec fn position_from<A>(s: Seq<A>, p: spec_fn(A) -> bool, k: int) -> int
    decreases s.len() - k,
{
    if k >= s.len() {
        s.len() as int
    } else if p(s[k]) {
        k
    } else {
        position_from(s, p, k + 1)
    }
}

/// The first index at which `p` holds, or the length.
pub open spec fn position<A>(s: Seq<A>, p: spec_fn(A) -> bool) -> int {
    position_from(s, p, 0)
}

/// The index of the first element for which `p` holds.
pub open spec fn place<A>(s: Seq<A>, p: spec_fn(A) -> bool) -> Option<int> {
    if position(s, p) < s.len() {
        Some(position(s, p))
    } else {
        None
    }
}

/// The first element for which `p` holds.
pub open spec fn find<A>(s: Seq<A>, p: spec_fn(A) -> bool) -> Option<A> {
    if position(s, p) < s.len() {
        Some(s[position(s, p)])
    } else {
        None
    }
}

/// The elements for which `p` holds, in order.
pub open spec fn kept<A>(s: Seq<A>, p: spec_fn(A) -> bool) -> Seq<A>
    decreases s.len(),
{
    if s.len() == 0 {
        Seq::empty()
    } else if p(s.last()) {
        kept(s.drop_last(), p).push(s.last())
    } else {
        kept(s.drop_last(), p)
    }
}

pub proof fn lemma_position_from<A>(s: Seq<A>, p: spec_fn(A) -> bool, k: int)
    requires
        0 <= k <= s.len(),
    ensures
        k <= position_from(s, p, k) <= s.len(),
        forall|i: int| k <= i < position_from(s, p, k) ==> !p(#[trigger] s[i]),
        position_from(s, p, k) < s.len() ==> p(s[position_from(s, p, k)]),
    decreases s.len() - k,
{
    if k < s.len() && !p(s[k]) {
        lemma_position_from(s, p, k + 1);
    }
}

/// A position is the first place where the predicate holds.
pub proof fn lemma_position<A>(s: Seq<A>, p: spec_fn(A) -> bool)
    ensures
        0 <= position(s, p) <= s.len(),
        forall|i: int| 0 <= i < position(s, p) ==> !p(#[trigger] s[i]),
        position(s, p) < s.len() ==> p(s[position(s, p)]),
{
    lemma_position_from(s, p, 0);
}

/// The first place where the predicate holds is its position.
pub proof fn lemma_is_position<A>(s: Seq<A>, p: spec_fn(A) -> bool, i: int)
    requires
        0 <= i < s.len(),
        p(s[i]),
        forall|k: int| 0 <= k < i ==> !p(#[trigger] s[k]),
    ensures
        position(s, p) == i,
{
    lemma_position(s, p);
    if i < position(s, p) {
        assert(!p(s[i]));
    }
    if position(s, p) < i {
        assert(!p(s[position(s, p)]));
    }
}

/// Keeping keeps exactly the elements for which the predicate holds.
pub proof fn lemma_kept<A>(s: Seq<A>, p: spec_fn(A) -> bool)
    ensures
        forall|a: A| #[trigger] kept(s, p).contains(a) <==> s.contains(a) && p(a),
        kept(s, p).len() <= s.len(),
    decreases s.len(),
{
    if s.len() > 0 {
        let front = s.drop_last();
        lemma_kept(front, p);
        assert forall|a: A| #[trigger] kept(s, p).contains(a) <==> s.contains(a) && p(a) by {
            let all = kept(s, p);
            let rest = kept(front, p);
            if all.contains(a) {
                let i = choose|i: int| 0 <= i < all.len() && all[i] == a;
                if i < rest.len() {
                    assert(rest[i] == a);
                    assert(rest.contains(a));
                    let k = choose|k: int| 0 <= k < front.len() && front[k] == a;
                    assert(s[k] == a);
                } else {
                    assert(s[s.len() - 1] == a);
                }
            }
            if s.contains(a) && p(a) {
                let k = choose|k: int| 0 <= k < s.len() && s[k] == a;
                if k < front.len() {
                    assert(front[k] == a);
                    assert(rest.contains(a));
                    let i = choose|i: int| 0 <= i < rest.len() && rest[i] == a;
                    assert(all[i] == a);
                } else {
                    assert(all[all.len() - 1] == a);
                }
            }
        }
    }
}

/// Keeping looks at each element for itself: one that passes is kept, one that does
/// not is left out, and the order stays.
pub proof fn keeping_looks_at_each_element<A>(
    a: Seq<A>,
    x: A,
    b: Seq<A>,
    p: spec_fn(A) -> bool,
)
    ensures
        kept(Seq::empty(), p) == Seq::<A>::empty(),
        p(x) ==> kept(seq![x], p) == seq![x],
        !p(x) ==> kept(seq![x], p) == Seq::<A>::empty(),
        kept(a + b, p) == kept(a, p) + kept(b, p),
    decreases b.len(),
{
    assert(seq![x].drop_last() =~= Seq::<A>::empty());
    assert(kept(Seq::empty(), p) =~= Seq::<A>::empty());
    if p(x) {
        assert(kept(seq![x], p) =~= seq![x]);
    }
    let all = a + b;
    if b.len() == 0 {
        assert(all =~= a);
        assert(kept(a, p) + kept(b, p) =~= kept(a, p));
    } else {
        keeping_looks_at_each_element(a, x, b.drop_last(), p);
        assert(all.drop_last() =~= a + b.drop_last());
        assert(all.last() == b.last());
        if p(b.last()) {
            assert((kept(a, p) + kept(b.drop_last(), p)).push(b.last()) =~= kept(a, p) + kept(
                b.drop_last(),
                p,
            ).push(b.last()));
        }
    }
}

/// A place is where the predicate first holds, and there is one wherever it holds
/// at all.
pub proof fn a_place_is_the_first<A>(s: Seq<A>, p: spec_fn(A) -> bool, i: int)
    ensures
        place(s, p) == Some(i) <==> 0 <= i < s.len() && p(s[i]) && forall|k: int|
            0 <= k < i ==> !p(#[trigger] s[k]),
        place(s, p) is None <==> forall|k: int| 0 <= k < s.len() ==> !p(#[trigger] s[k]),
        find(s, p) == match place(s, p) {
            Some(k) => Some(s[k]),
            None => None,
        },
{
    lemma_position(s, p);
    if 0 <= i < s.len() && p(s[i]) && forall|k: int| 0 <= k < i ==> !p(#[trigger] s[k]) {
        lemma_is_position(s, p, i);
    }
}

/// Whether `out` is what `f` makes of the indices in `at`, which are those below `n`
/// for which `p` holds, in ascending order.
pub open spec fn picked<B>(
    out: Seq<B>,
    n: int,
    p: spec_fn(int) -> bool,
    f: spec_fn(int) -> B,
    at: Seq<int>,
) -> bool {
    &&& at.len() == out.len()
    &&& forall|i: int, j: int| 0 <= i < j < at.len() ==> #[trigger] at[i] < #[trigger] at[j]
    &&& forall|k: int| #[trigger] at.contains(k) <==> 0 <= k < n && p(k)
    &&& forall|i: int| 0 <= i < at.len() ==> out[i] == f(#[trigger] at[i])
}

/// Whether `out` is what `f` makes of each index below `n` for which `p` holds, once
/// and in order, and nothing else.
pub open spec fn picks<B>(
    out: Seq<B>,
    n: int,
    p: spec_fn(int) -> bool,
    f: spec_fn(int) -> B,
) -> bool {
    exists|at: Seq<int>| #[trigger] picked(out, n, p, f, at)
}

/// Whether `out` grows at `k` as a list does that picks by `p`.
pub open spec fn picks_next<B>(
    out: spec_fn(int) -> Seq<B>,
    k: int,
    p: spec_fn(int) -> bool,
    f: spec_fn(int) -> B,
) -> bool {
    out(k + 1) == if p(k) {
        out(k).push(f(k))
    } else {
        out(k)
    }
}

/// A list that grows so, from nothing, picks.
pub proof fn lemma_picks<B>(
    out: spec_fn(int) -> Seq<B>,
    n: int,
    p: spec_fn(int) -> bool,
    f: spec_fn(int) -> B,
)
    requires
        0 <= n,
        out(0) == Seq::<B>::empty(),
        forall|k: int| 0 <= k < n ==> #[trigger] picks_next(out, k, p, f),
    ensures
        picks(out(n), n, p, f),
    decreases n,
{
    if n == 0 {
        assert(picked(out(0), 0, p, f, Seq::<int>::empty()));
    } else {
        lemma_picks(out, n - 1, p, f);
        assert(picks_next(out, n - 1, p, f));
        let before = choose|at: Seq<int>| #[trigger] picked(out(n - 1), n - 1, p, f, at);
        let at = if p(n - 1) {
            before.push(n - 1)
        } else {
            before
        };
        assert forall|i: int| 0 <= i < before.len() implies 0 <= #[trigger] before[i] < n - 1 by {
            assert(before.contains(before[i]));
        }
        assert forall|k: int| #[trigger] at.contains(k) <==> 0 <= k < n && p(k) by {
            if at.contains(k) {
                let i = choose|i: int| 0 <= i < at.len() && at[i] == k;
                if i < before.len() {
                    assert(before[i] == k);
                    assert(before.contains(k));
                }
            }
            if 0 <= k < n && p(k) {
                if k < n - 1 {
                    assert(before.contains(k));
                    let i = choose|i: int| 0 <= i < before.len() && before[i] == k;
                    assert(at[i] == k);
                } else {
                    assert(at[before.len() as int] == k);
                }
            }
        }
        assert forall|i: int| 0 <= i < at.len() implies out(n)[i] == f(#[trigger] at[i]) by {
            if i < before.len() {
                assert(at[i] == before[i]);
            }
        }
        assert(picked(out(n), n, p, f, at));
    }
}

/// What was picked is what `f` makes of some index for which `p` holds, and each of
/// those was.
pub proof fn lemma_picked_is_made<B>(
    out: Seq<B>,
    n: int,
    p: spec_fn(int) -> bool,
    f: spec_fn(int) -> B,
    b: B,
)
    requires
        picks(out, n, p, f),
    ensures
        out.contains(b) <==> exists|k: int| 0 <= k < n && #[trigger] p(k) && f(k) == b,
        out.len() > 0 <==> exists|k: int| 0 <= k < n && #[trigger] p(k),
{
    let at = choose|at: Seq<int>| #[trigger] picked(out, n, p, f, at);
    if out.contains(b) {
        let i = choose|i: int| 0 <= i < out.len() && out[i] == b;
        assert(at.contains(at[i]));
        assert(p(at[i]) && f(at[i]) == b);
    }
    if exists|k: int| 0 <= k < n && #[trigger] p(k) && f(k) == b {
        let k = choose|k: int| 0 <= k < n && #[trigger] p(k) && f(k) == b;
        assert(at.contains(k));
        let i = choose|i: int| 0 <= i < at.len() && at[i] == k;
        assert(out[i] == f(at[i]));
    }
    if out.len() > 0 {
        assert(at.contains(at[0]));
    }
    if exists|k: int| 0 <= k < n && #[trigger] p(k) {
        let k = choose|k: int| 0 <= k < n && #[trigger] p(k);
        assert(at.contains(k));
    }
}

/// As many elements are kept as there are indices at which the predicate holds.
pub proof fn keeping_counts_the_indices<A>(s: Seq<A>, p: spec_fn(A) -> bool)
    ensures
        ({
            let at = Set::new(|k: int| 0 <= k < s.len() && p(s[k]));
            at.finite() && kept(s, p).len() == at.len()
        }),
    decreases s.len(),
{
    let at = Set::new(|k: int| 0 <= k < s.len() && p(s[k]));
    if s.len() == 0 {
        assert(at =~= Set::<int>::empty());
    } else {
        let front = s.drop_last();
        keeping_counts_the_indices(front, p);
        let before = Set::new(|k: int| 0 <= k < front.len() && p(front[k]));
        assert forall|k: int| 0 <= k < front.len() implies front[k] == s[k] by {}
        if p(s.last()) {
            assert(at =~= before.insert(s.len() - 1));
        } else {
            assert(at =~= before);
        }
    }
}

/// Joining lists one by one is joining them all.
pub proof fn lemma_flattened<B>(parts: Seq<Seq<B>>, last: Seq<B>)
    ensures
        parts.push(last).flatten() == parts.flatten() + last,
        Seq::<Seq<B>>::empty().flatten() == Seq::<B>::empty(),
{
    let all = parts.push(last);
    all.lemma_flatten_and_flatten_alt_are_equivalent();
    parts.lemma_flatten_and_flatten_alt_are_equivalent();
    assert(all.drop_last() =~= parts);
}

} // verus!
