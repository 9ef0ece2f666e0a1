//! What the workspace notices across threads.
//!
//! Detection cannot live inside a thread -- no thread can see another's
//! worktree -- so it sits above them. It is deliberately shallow: it knows
//! *that* two threads have changes in one file, never what those changes are.

use vstd::prelude::*;

use crate::lists;
use crate::shell::threads::{ThreadUi, ThreadUiModel};
use crate::text;

verus! {

/// Something the workspace noticed across threads.
///
/// Computed rather than stored: intersecting the file sets of live threads is
/// set maths on metadata that already exists, so it can run at every turn
/// boundary without costing anything.
#[derive(Debug)]
pub struct Observation {
    pub file: String,
    pub threads: Vec<usize>,
}

#[verifier::ext_equal]
pub ghost struct ObservationModel {
    pub file: Seq<char>,
    pub threads: Seq<usize>,
}

impl DeepView for Observation {
    type V = ObservationModel;

    open spec fn deep_view(&self) -> ObservationModel {
        ObservationModel { file: self.file@, threads: self.threads@ }
    }
}

impl Clone for Observation {
    fn clone(&self) -> (r: Self)
        ensures
            r.deep_view() == self.deep_view(),
    {
        let r = Observation { file: self.file.clone(), threads: self.threads.clone() };
        assert(r.threads@ =~= self.threads@);
        r
    }
}

/// The observations with thread `i` filed under `file`.
pub open spec fn filed(
    found: Seq<ObservationModel>,
    file: Seq<char>,
    i: usize,
) -> Seq<ObservationModel> {
    match lists::place(found, |o: ObservationModel| o.file == file) {
        Some(k) => found.update(
            k,
            ObservationModel { file, threads: found[k].threads.push(i) },
        ),
        None => found.push(ObservationModel { file, threads: seq![i] }),
    }
}

/// Which of the first `k` threads are live in which file, by file.
pub open spec fn grouped(threads: Seq<ThreadUiModel>, k: int) -> Seq<ObservationModel>
    decreases k,
{
    if k <= 0 {
        Seq::empty()
    } else {
        let before = grouped(threads, k - 1);
        let t = threads[k - 1];
        if t.live_in(t.diff_path()) {
            filed(before, t.diff_path(), (k - 1) as usize)
        } else {
            before
        }
    }
}

/// The files with more than one live thread in them, and those threads.
pub open spec fn observed(threads: Seq<ThreadUiModel>) -> Seq<ObservationModel> {
    lists::kept(grouped(threads, threads.len() as int), |o: ObservationModel| o.threads.len() > 1)
}

/// Which live threads have uncommitted changes in the same file.
///
/// Set maths over metadata: no model call, no diff read. Idle threads are
/// skipped because a thread that is not running cannot surprise anyone, and a
/// file only reports if more than one thread is in it.
pub fn observe(threads: &Vec<ThreadUi>) -> (r: Vec<Observation>)
    ensures
        r.deep_view() == observed(threads.deep_view()),
{
    let ghost all = threads.deep_view();
    let mut found: Vec<Observation> = Vec::new();
    let mut i: usize = 0;
    assert(found.deep_view() =~= grouped(all, 0));
    while i < threads.len()
        invariant
            all == threads.deep_view(),
            i <= threads.len(),
            found.deep_view() == grouped(all, i as int),
        decreases threads.len() - i,
    {
        assert(all[i as int] == threads@[i as int].deep_view());
        if threads[i].agent_busy && threads[i].has_diff() {
            let file = threads[i].diff_path();
            file_under(&mut found, file, i);
        }
        i += 1;
    }
    let ghost groups = found.deep_view();
    let ghost p = |o: ObservationModel| o.threads.len() > 1;
    let mut out: Vec<Observation> = Vec::new();
    let mut k: usize = 0;
    assert(out.deep_view() =~= lists::kept(groups.take(0), p));
    while k < found.len()
        invariant
            groups == found.deep_view(),
            p == (|o: ObservationModel| o.threads.len() > 1),
            k <= found.len(),
            out.deep_view() == lists::kept(groups.take(k as int), p),
        decreases found.len() - k,
    {
        assert(groups.take(k + 1).drop_last() =~= groups.take(k as int));
        assert(groups[k as int] == found@[k as int].deep_view());
        if found[k].threads.len() > 1 {
            let ghost before = out.deep_view();
            let kept = found[k].clone();
            out.push(kept);
            assert(out.deep_view() =~= before.push(groups[k as int]));
        }
        k += 1;
    }
    assert(groups.take(groups.len() as int) =~= groups);
    out
}

fn file_under(found: &mut Vec<Observation>, file: String, i: usize)
    ensures
        final(found).deep_view() == filed(old(found).deep_view(), file@, i),
{
    let ghost all = found.deep_view();
    let ghost p = |o: ObservationModel| o.file == file@;
    let n = found.len();
    let mut k: usize = 0;
    while k < n
        invariant
            *found == *old(found),
            n == found.len(),
            all == found.deep_view(),
            p == (|o: ObservationModel| o.file == file@),
            k <= n,
            lists::position(all, p) == lists::position_from(all, p, k as int),
        decreases n - k,
    {
        assert(all[k as int] == found@[k as int].deep_view());
        if text::same_text(found[k].file.as_str(), file.as_str()) {
            found[k].threads.push(i);
            assert(found.deep_view() =~= filed(all, file@, i));
            return;
        }
        k += 1;
    }
    let made = Observation { file, threads: vec![i] };
    assert(made.threads@ =~= seq![i]);
    found.push(made);
    assert(found.deep_view() =~= filed(all, made.file@, i));
}

// -------------------------------------------------------------------- laws --

/// Which of the first `k` threads are live in `file`, in order.
pub open spec fn live_threads(threads: Seq<ThreadUiModel>, file: Seq<char>, k: int) -> Seq<usize>
    decreases k,
{
    if k <= 0 {
        Seq::empty()
    } else if threads[k - 1].live_in(file) {
        live_threads(threads, file, k - 1).push((k - 1) as usize)
    } else {
        live_threads(threads, file, k - 1)
    }
}

/// How many threads the observations list in all.
pub open spec fn listed(found: Seq<ObservationModel>) -> nat
    decreases found.len(),
{
    if found.len() == 0 {
        0
    } else {
        listed(found.drop_last()) + found.last().threads.len()
    }
}

proof fn lemma_listed_update(found: Seq<ObservationModel>, k: int, o: ObservationModel)
    requires
        0 <= k < found.len(),
    ensures
        listed(found.update(k, o)) + found[k].threads.len() == listed(found) + o.threads.len(),
    decreases found.len(),
{
    let made = found.update(k, o);
    if k == found.len() - 1 {
        assert(made.drop_last() =~= found.drop_last());
    } else {
        assert(made.drop_last() =~= found.drop_last().update(k, o));
        lemma_listed_update(found.drop_last(), k, o);
    }
}

proof fn lemma_listed_kept(found: Seq<ObservationModel>, p: spec_fn(ObservationModel) -> bool)
    ensures
        listed(lists::kept(found, p)) <= listed(found),
    decreases found.len(),
{
    if found.len() > 0 {
        let front = found.drop_last();
        lemma_listed_kept(front, p);
        if p(found.last()) {
            assert(lists::kept(found, p).drop_last() =~= lists::kept(front, p));
        }
    }
}

/// No two of the observations are about the same file.
pub open spec fn distinct_files(found: Seq<ObservationModel>) -> bool {
    forall|g: int, h: int|
        0 <= g < h < found.len() ==> (#[trigger] found[g]).file != (#[trigger] found[h]).file
}

proof fn lemma_distinct_kept(found: Seq<ObservationModel>, p: spec_fn(ObservationModel) -> bool)
    requires
        distinct_files(found),
    ensures
        distinct_files(lists::kept(found, p)),
    decreases found.len(),
{
    if found.len() > 0 {
        let front = found.drop_last();
        assert forall|g: int, h: int| 0 <= g < h < front.len() implies (#[trigger] front[g]).file
            != (#[trigger] front[h]).file by {
            assert(front[g] == found[g] && front[h] == found[h]);
        }
        lemma_distinct_kept(front, p);
        let before = lists::kept(front, p);
        let all = lists::kept(found, p);
        if p(found.last()) {
            lists::lemma_kept(front, p);
            assert forall|g: int, h: int| 0 <= g < h < all.len() implies (#[trigger] all[g]).file
                != (#[trigger] all[h]).file by {
                assert(all[g] == before[g]);
                if h == before.len() {
                    assert(before.contains(before[g]));
                    let j = choose|j: int| 0 <= j < front.len() && front[j] == before[g];
                    assert(found[j].file != found[found.len() - 1].file);
                }
            }
        }
    }
}

/// Every group holds exactly the live threads of its file, no file has two
/// groups, and every live thread is in one.
pub open spec fn well_grouped(
    threads: Seq<ThreadUiModel>,
    k: int,
    found: Seq<ObservationModel>,
) -> bool {
    &&& forall|g: int|
        0 <= g < found.len() ==> (#[trigger] found[g]).threads == live_threads(
            threads,
            found[g].file,
            k,
        )
    &&& forall|g: int| 0 <= g < found.len() ==> (#[trigger] found[g]).threads.len() > 0
    &&& forall|g: int, h: int|
        0 <= g < h < found.len() ==> (#[trigger] found[g]).file != (#[trigger] found[h]).file
    &&& forall|file: Seq<char>| #[trigger]
        live_threads(threads, file, k).len() > 0 ==> exists|g: int|
            0 <= g < found.len() && (#[trigger] found[g]).file == file
    &&& listed(found) <= k
}

proof fn lemma_grouped(threads: Seq<ThreadUiModel>, k: int)
    requires
        0 <= k <= threads.len(),
    ensures
        well_grouped(threads, k, grouped(threads, k)),
    decreases k,
{
    let found = grouped(threads, k);
    if k > 0 {
        lemma_grouped(threads, k - 1);
        let before = grouped(threads, k - 1);
        let t = threads[k - 1];
        let file = t.diff_path();
        if t.live_in(file) {
            let p = |o: ObservationModel| o.file == file;
            lists::lemma_position(before, p);
            let at = lists::position(before, p);
            if at < before.len() {
                let o = ObservationModel {
                    file,
                    threads: before[at].threads.push((k - 1) as usize),
                };
                lemma_listed_update(before, at, o);
                assert(found == before.update(at, o));
                assert forall|g: int| 0 <= g < found.len() implies (#[trigger] found[g]).threads
                    == live_threads(threads, found[g].file, k) by {
                    let was = before[g];
                    if g != at {
                        if g < at {
                            assert(before[g].file != before[at].file);
                        } else {
                            assert(before[at].file != before[g].file);
                        }
                        assert(!t.live_in(was.file));
                    }
                }
                assert forall|g: int, h: int| 0 <= g < h < found.len() implies (
                #[trigger] found[g]).file != (#[trigger] found[h]).file by {
                    assert(before[g].file != before[h].file);
                }
                assert forall|f: Seq<char>| #[trigger]
                    live_threads(threads, f, k).len() > 0 implies exists|g: int|
                    0 <= g < found.len() && (#[trigger] found[g]).file == f by {
                    if f == file {
                        assert(found[at].file == f);
                    } else {
                        assert(live_threads(threads, f, k - 1).len() > 0);
                        let g = choose|g: int|
                            0 <= g < before.len() && (#[trigger] before[g]).file == f;
                        assert(found[g].file == f);
                    }
                }
            } else {
                let o = ObservationModel { file, threads: seq![(k - 1) as usize] };
                assert(found == before.push(o));
                assert(found.drop_last() =~= before);
                assert(live_threads(threads, file, k - 1).len() == 0) by {
                    if live_threads(threads, file, k - 1).len() > 0 {
                        let g = choose|g: int|
                            0 <= g < before.len() && (#[trigger] before[g]).file == file;
                        assert(p(before[g]));
                    }
                }
                assert forall|g: int| 0 <= g < found.len() implies (#[trigger] found[g]).threads
                    == live_threads(threads, found[g].file, k) by {
                    if g < before.len() {
                        assert(!p(before[g]));
                        assert(found[g] == before[g]);
                        assert(!t.live_in(before[g].file));
                    } else {
                        assert(live_threads(threads, file, k - 1) =~= Seq::<usize>::empty());
                        assert(found[g].threads =~= live_threads(threads, file, k));
                    }
                }
                assert forall|g: int, h: int| 0 <= g < h < found.len() implies (
                #[trigger] found[g]).file != (#[trigger] found[h]).file by {
                    assert(found[g] == before[g]);
                    if h < before.len() {
                        assert(before[g].file != before[h].file);
                    } else {
                        assert(!p(before[g]));
                    }
                }
                assert forall|f: Seq<char>| #[trigger]
                    live_threads(threads, f, k).len() > 0 implies exists|g: int|
                    0 <= g < found.len() && (#[trigger] found[g]).file == f by {
                    if f == file {
                        assert(found[before.len() as int].file == f);
                    } else {
                        assert(live_threads(threads, f, k - 1).len() > 0);
                        let g = choose|g: int|
                            0 <= g < before.len() && (#[trigger] before[g]).file == f;
                        assert(found[g].file == f);
                    }
                }
            }
        } else {
            assert forall|f: Seq<char>| #[trigger]
                live_threads(threads, f, k).len() > 0 implies exists|g: int|
                0 <= g < found.len() && (#[trigger] found[g]).file == f by {
                if t.live_in(f) {
                    assert(f == file);
                }
                assert(live_threads(threads, f, k - 1).len() > 0);
            }
            assert forall|g: int| 0 <= g < found.len() implies (#[trigger] found[g]).threads
                == live_threads(threads, found[g].file, k) by {
                assert(found[g] == before[g]);
                if t.live_in(found[g].file) {
                    assert(found[g].file == file);
                }
            }
        }
    }
}

proof fn lemma_live_threads(threads: Seq<ThreadUiModel>, file: Seq<char>, k: int)
    requires
        0 <= k <= threads.len(),
        threads.len() <= usize::MAX,
    ensures
        forall|i: usize| #[trigger]
            live_threads(threads, file, k).contains(i) <==> i < k && threads[i as int].live_in(
                file,
            ),
        live_threads(threads, file, k).no_duplicates(),
    decreases k,
{
    if k > 0 {
        lemma_live_threads(threads, file, k - 1);
        let before = live_threads(threads, file, k - 1);
        let all = live_threads(threads, file, k);
        assert forall|i: usize| #[trigger] all.contains(i) <==> i < k
            && threads[i as int].live_in(file) by {
            if all.contains(i) {
                let j = choose|j: int| 0 <= j < all.len() && all[j] == i;
                if j < before.len() {
                    assert(before[j] == i);
                    assert(before.contains(i));
                }
            }
            if i < k && threads[i as int].live_in(file) {
                if i < k - 1 {
                    assert(before.contains(i));
                    let j = choose|j: int| 0 <= j < before.len() && before[j] == i;
                    assert(all[j] == i);
                } else {
                    assert(all[all.len() - 1] == i);
                }
            }
        }
        assert(all.no_duplicates()) by {
            assert forall|a: int, b: int| 0 <= a < b < all.len() implies all[a] != all[b] by {
                if b == before.len() {
                    assert(before.contains(all[a]));
                }
            }
        }
    }
}

/// The sweep reports a file exactly when more than one live thread is in it,
/// once, with exactly those threads: idle threads and threads without changes
/// are in no report.
pub proof fn observations_are_the_shared_files(threads: Seq<ThreadUiModel>)
    requires
        threads.len() <= usize::MAX,
    ensures
        forall|o: ObservationModel| #[trigger]
            observed(threads).contains(o) <==> {
                &&& o.threads.len() > 1
                &&& o.threads == live_threads(threads, o.file, threads.len() as int)
            },
        forall|file: Seq<char>, i: usize| #[trigger]
            live_threads(threads, file, threads.len() as int).contains(i) <==> i < threads.len()
                && threads[i as int].live_in(file),
        distinct_files(observed(threads)),
        listed(observed(threads)) <= threads.len(),
{
    let n = threads.len() as int;
    let found = grouped(threads, n);
    let p = |o: ObservationModel| o.threads.len() > 1;
    lemma_grouped(threads, n);
    lists::lemma_kept(found, p);
    lemma_listed_kept(found, p);
    lemma_distinct_kept(found, p);
    assert forall|o: ObservationModel| #[trigger] observed(threads).contains(o) <==> {
        &&& o.threads.len() > 1
        &&& o.threads == live_threads(threads, o.file, n)
    } by {
        if observed(threads).contains(o) {
            assert(found.contains(o));
            let g = choose|g: int| 0 <= g < found.len() && found[g] == o;
            assert(found[g].threads == live_threads(threads, found[g].file, n));
        }
        if o.threads.len() > 1 && o.threads == live_threads(threads, o.file, n) {
            let g = choose|g: int| 0 <= g < found.len() && (#[trigger] found[g]).file == o.file;
            assert(found[g] == o);
            assert(found.contains(o));
        }
    }
    assert forall|file: Seq<char>, i: usize| #[trigger]
        live_threads(threads, file, n).contains(i) <==> i < threads.len()
        && threads[i as int].live_in(file) by {
        lemma_live_threads(threads, file, n);
    }
}

/// Every thread an observation lists exists.
pub proof fn lemma_observed_exist(threads: Seq<ThreadUiModel>, g: int, j: int)
    requires
        threads.len() <= usize::MAX,
        0 <= g < observed(threads).len(),
        0 <= j < observed(threads)[g].threads.len(),
    ensures
        observed(threads)[g].threads[j] < threads.len(),
        threads[observed(threads)[g].threads[j] as int].live_in(observed(threads)[g].file),
{
    observations_are_the_shared_files(threads);
    let o = observed(threads)[g];
    assert(observed(threads).contains(o));
    assert(live_threads(threads, o.file, threads.len() as int).contains(o.threads[j]));
}

/// Whether the groups list threads below `k`, each group its own in ascending order,
/// and come in the order of their first threads.
pub open spec fn in_thread_order(found: Seq<ObservationModel>, k: int) -> bool {
    &&& forall|g: int| 0 <= g < found.len() ==> (#[trigger] found[g]).threads.len() > 0
    &&& forall|g: int, j: int|
        #![trigger found[g].threads[j]]
        0 <= g < found.len() && 0 <= j < found[g].threads.len() ==> found[g].threads[j] < k
    &&& forall|g: int, i: int, j: int|
        #![trigger found[g].threads[i], found[g].threads[j]]
        0 <= g < found.len() && 0 <= i < j < found[g].threads.len() ==> found[g].threads[i]
            < found[g].threads[j]
    &&& forall|g: int, h: int|
        0 <= g < h < found.len() ==> (#[trigger] found[g]).threads[0] < (
        #[trigger] found[h]).threads[0]
}

proof fn lemma_grouped_in_order(threads: Seq<ThreadUiModel>, k: int)
    requires
        0 <= k <= threads.len() <= usize::MAX,
    ensures
        in_thread_order(grouped(threads, k), k),
    decreases k,
{
    let found = grouped(threads, k);
    if k > 0 {
        lemma_grouped_in_order(threads, k - 1);
        let before = grouped(threads, k - 1);
        let t = threads[k - 1];
        if t.live_in(t.diff_path()) {
            let p = |o: ObservationModel| o.file == t.diff_path();
            lists::lemma_position(before, p);
            let at = lists::position(before, p);
            assert forall|g: int, j: int|
                #![trigger found[g].threads[j]]
                0 <= g < found.len() && 0 <= j < found[g].threads.len() implies found[g].threads[j]
                < k by {
                if g < before.len() && j < before[g].threads.len() {
                    assert(before[g].threads[j] < k - 1);
                }
            }
            assert forall|g: int, i: int, j: int|
                #![trigger found[g].threads[i], found[g].threads[j]]
                0 <= g < found.len() && 0 <= i < j < found[g].threads.len() implies
                found[g].threads[i] < found[g].threads[j] by {
                if g < before.len() {
                    assert(before[g].threads[i] < k - 1);
                    if j < before[g].threads.len() {
                        assert(before[g].threads[i] < before[g].threads[j]);
                    }
                }
            }
            assert forall|g: int, h: int| 0 <= g < h < found.len() implies (
            #[trigger] found[g]).threads[0] < (#[trigger] found[h]).threads[0] by {
                assert(before[g].threads.len() > 0);
                assert(before[g].threads[0] < k - 1);
                if h < before.len() {
                    assert(before[h].threads.len() > 0);
                    assert(before[g].threads[0] < before[h].threads[0]);
                }
            }
        } else {
            assert forall|g: int, j: int|
                #![trigger found[g].threads[j]]
                0 <= g < found.len() && 0 <= j < found[g].threads.len() implies found[g].threads[j]
                < k by {
                assert(before[g].threads[j] < k - 1);
            }
        }
    }
}

proof fn lemma_kept_in_order(found: Seq<ObservationModel>, p: spec_fn(ObservationModel) -> bool, k: int)
    requires
        in_thread_order(found, k),
    ensures
        in_thread_order(lists::kept(found, p), k),
    decreases found.len(),
{
    if found.len() > 0 {
        let front = found.drop_last();
        assert forall|g: int, j: int|
            #![trigger front[g].threads[j]]
            0 <= g < front.len() && 0 <= j < front[g].threads.len() implies front[g].threads[j]
            < k by {
            assert(front[g] == found[g]);
            assert(found[g].threads[j] < k);
        }
        assert forall|g: int, i: int, j: int|
            #![trigger front[g].threads[i], front[g].threads[j]]
            0 <= g < front.len() && 0 <= i < j < front[g].threads.len() implies
            front[g].threads[i] < front[g].threads[j] by {
            assert(front[g] == found[g]);
            assert(found[g].threads[i] < found[g].threads[j]);
        }
        lemma_kept_in_order(front, p, k);
        lists::lemma_kept(front, p);
        let before = lists::kept(front, p);
        let all = lists::kept(found, p);
        let last = found.len() - 1;
        if p(found.last()) {
            assert forall|g: int, j: int|
                #![trigger all[g].threads[j]]
                0 <= g < all.len() && 0 <= j < all[g].threads.len() implies all[g].threads[j]
                < k by {
                if g < before.len() {
                    assert(before[g].threads[j] < k);
                } else {
                    assert(found[last].threads[j] < k);
                }
            }
            assert forall|g: int, i: int, j: int|
                #![trigger all[g].threads[i], all[g].threads[j]]
                0 <= g < all.len() && 0 <= i < j < all[g].threads.len() implies all[g].threads[i]
                < all[g].threads[j] by {
                if g < before.len() {
                    assert(before[g].threads[i] < before[g].threads[j]);
                } else {
                    assert(found[last].threads[i] < found[last].threads[j]);
                }
            }
            assert forall|g: int, h: int| 0 <= g < h < all.len() implies (
            #[trigger] all[g]).threads[0] < (#[trigger] all[h]).threads[0] by {
                if h < before.len() {
                    assert(before[g].threads[0] < before[h].threads[0]);
                } else {
                    assert(before.contains(before[g]));
                    let m = choose|m: int| 0 <= m < front.len() && front[m] == before[g];
                    assert(found[m].threads[0] < found[last].threads[0]);
                }
            }
        }
    }
}

/// What is noticed comes in the order of the threads it was first noticed in, and each
/// thing lists its threads in their order.
pub proof fn observations_come_in_thread_order(threads: Seq<ThreadUiModel>)
    requires
        threads.len() <= usize::MAX,
    ensures
        in_thread_order(observed(threads), threads.len() as int),
{
    lemma_grouped_in_order(threads, threads.len() as int);
    lemma_kept_in_order(
        grouped(threads, threads.len() as int),
        |o: ObservationModel| o.threads.len() > 1,
        threads.len() as int,
    );
}

/// A file is noticed exactly where two threads whose agents work have changes in it,
/// and with it exactly the threads of which that holds.
pub proof fn what_is_noticed_is_shared_work(threads: Seq<ThreadUiModel>, file: Seq<char>)
    requires
        threads.len() <= usize::MAX,
    ensures
        ({
            let at_work = |i: int|
                0 <= i < threads.len() && threads[i].agent_busy && threads[i].seed.diff_lines.len()
                    > 0 && threads[i].seed.diff_dir + threads[i].seed.diff_file == file;
            &&& (exists|g: int|
                0 <= g < observed(threads).len() && (#[trigger] observed(threads)[g]).file == file)
                <==> exists|i: int, j: int| i < j && #[trigger] at_work(i) && #[trigger] at_work(j)
            &&& forall|g: int, i: usize|
                0 <= g < observed(threads).len() && observed(threads)[g].file == file ==> (
                #[trigger] observed(threads)[g].threads.contains(i) <==> at_work(i as int))
        }),
{
    let n = threads.len() as int;
    let at_work = |i: int|
        0 <= i < threads.len() && threads[i].agent_busy && threads[i].seed.diff_lines.len() > 0
            && threads[i].seed.diff_dir + threads[i].seed.diff_file == file;
    observations_are_the_shared_files(threads);
    lemma_live_threads(threads, file, n);
    let live = live_threads(threads, file, n);
    let found = observed(threads);
    assert forall|i: usize| #[trigger] live.contains(i) <==> at_work(i as int) by {}
    assert forall|g: int, i: usize| 0 <= g < found.len() && found[g].file == file implies (
    #[trigger] found[g].threads.contains(i) <==> at_work(i as int)) by {
        assert(found.contains(found[g]));
        assert(found[g].threads == live);
        assert(live.contains(i) <==> at_work(i as int));
    }
    if exists|g: int| 0 <= g < found.len() && (#[trigger] found[g]).file == file {
        let g = choose|g: int| 0 <= g < found.len() && (#[trigger] found[g]).file == file;
        assert(found.contains(found[g]));
        let (a, b) = (found[g].threads[0], found[g].threads[1]);
        assert(found[g].threads.contains(a) && found[g].threads.contains(b));
        assert(at_work(a as int) && at_work(b as int));
        assert(a != b);
        if a < b {
            assert(at_work(a as int) && at_work(b as int) && (a as int) < (b as int));
        } else {
            assert(at_work(b as int) && at_work(a as int) && (b as int) < (a as int));
        }
    }
    if exists|i: int, j: int| i < j && #[trigger] at_work(i) && #[trigger] at_work(j) {
        let (i, j) = choose|i: int, j: int| i < j && #[trigger] at_work(i) && #[trigger] at_work(j);
        assert(live.contains(i as usize) && live.contains(j as usize));
        let a = choose|a: int| 0 <= a < live.len() && live[a] == i as usize;
        let b = choose|b: int| 0 <= b < live.len() && live[b] == j as usize;
        assert(a != b);
        let o = ObservationModel { file, threads: live };
        assert(found.contains(o));
        let g = choose|g: int| 0 <= g < found.len() && found[g] == o;
        assert(found[g].file == file);
    }
}

// --------------------------------------------------------------- proposals --

/// Stands in for the model's call in auto mode: dirty in overlapping lines is
/// worth interrupting for; merely sharing a file is not.
pub open spec fn worth_interrupting(
    threads: Seq<ThreadUiModel>,
    to: usize,
    others: Seq<usize>,
) -> bool {
    exists|k: int|
        #![trigger others[k]]
        0 <= k < others.len() && others[k] != to && lines_collide(
            threads[to as int],
            threads[others[k] as int],
        )
}

/// Both threads are dirty, in overlapping lines.
pub open spec fn lines_collide(a: ThreadUiModel, b: ThreadUiModel) -> bool {
    match (a.dirty_lines(), b.dirty_lines()) {
        (Some(x), Some(y)) => x.start < y.end && y.start < x.end,
        _ => false,
    }
}

/// Stands in for the model's call in auto mode: dirty in overlapping lines is
/// worth interrupting for; merely sharing a file is not.
pub fn confident_about(threads: &Vec<ThreadUi>, to: usize, others: &Vec<usize>) -> (r: bool)
    requires
        to < threads.len(),
        forall|k: int| 0 <= k < others.len() ==> #[trigger] others@[k] < threads.len(),
        forall|i: int|
            0 <= i < threads.len() ==> (#[trigger] threads.deep_view()[i]).seed.numbered(),
    ensures
        r == worth_interrupting(threads.deep_view(), to, others@),
{
    let ghost all = threads.deep_view();
    let mut k: usize = 0;
    while k < others.len()
        invariant
            all == threads.deep_view(),
            to < threads.len(),
            forall|k: int| 0 <= k < others.len() ==> #[trigger] others@[k] < threads.len(),
            forall|i: int| 0 <= i < threads.len() ==> (#[trigger] all[i]).seed.numbered(),
            k <= others.len(),
            forall|j: int|
                0 <= j < k ==> !(#[trigger] others@[j] != to && lines_collide(
                    all[to as int],
                    all[others@[j] as int],
                )),
        decreases others.len() - k,
    {
        let other = others[k];
        if other != to {
            assert(all[to as int] == threads@[to as int].deep_view());
            assert(all[other as int] == threads@[other as int].deep_view());
            assert(all[to as int].seed.numbered() && all[other as int].seed.numbered());
            if let (Some(a), Some(b)) = (
                threads[to].dirty_lines(),
                threads[other].dirty_lines(),
            ) {
                if a.start < b.end && b.start < a.end {
                    assert(others@[k as int] == other);
                    return true;
                }
            }
        }
        k += 1;
    }
    false
}

/// The slugs of the other threads, as far as they have one.
pub open spec fn named_others(
    threads: Seq<ThreadUiModel>,
    to: usize,
    others: Seq<usize>,
    k: int,
) -> Seq<Seq<char>>
    decreases k,
{
    if k <= 0 {
        Seq::empty()
    } else {
        let before = named_others(threads, to, others, k - 1);
        let slug = threads[others[k - 1] as int].seed.slug;
        if others[k - 1] != to && slug.len() > 0 {
            before.push(slug)
        } else {
            before
        }
    }
}

/// What a finding says to thread `to`.
pub open spec fn finding(
    threads: Seq<ThreadUiModel>,
    file: Seq<char>,
    to: usize,
    others: Seq<usize>,
) -> Seq<char> {
    "another thread has uncommitted changes in "@ + text::after_last(file, '/') + ": @"@
        + text::joined(named_others(threads, to, others, others.len() as int), ", @"@)
        + ". worth a look before either lands."@
}

/// What a finding says to thread `to`.
pub fn proposal_body(threads: &Vec<ThreadUi>, file: &str, to: usize, others: &Vec<usize>) -> (r:
    String)
    requires
        forall|k: int| 0 <= k < others.len() ==> #[trigger] others@[k] < threads.len(),
    ensures
        r@ == finding(threads.deep_view(), file@, to, others@),
{
    let ghost all = threads.deep_view();
    let mut named: Vec<String> = Vec::new();
    let mut k: usize = 0;
    assert(named.deep_view() =~= named_others(all, to, others@, 0));
    while k < others.len()
        invariant
            all == threads.deep_view(),
            forall|k: int| 0 <= k < others.len() ==> #[trigger] others@[k] < threads.len(),
            k <= others.len(),
            named.deep_view() == named_others(all, to, others@, k as int),
        decreases others.len() - k,
    {
        let other = others[k];
        assert(all[other as int] == threads@[other as int].deep_view());
        if other != to && !text::is_empty(threads[other].seed.slug) {
            let ghost before = named.deep_view();
            named.push(threads[other].seed.slug.to_owned());
            assert(named.deep_view() =~= before.push(all[other as int].seed.slug));
        }
        k += 1;
    }
    let mut out = "another thread has uncommitted changes in ".to_owned();
    let short = text::rest_after_last(file, '/');
    out.append(short.as_str());
    out.append(": @");
    let list = text::join(&named, ", @");
    out.append(list.as_str());
    out.append(". worth a look before either lands.");
    out
}

/// What a finding says: which file, by its name, and which other threads are in it, by
/// their short names, as far as they were given one.
pub proof fn a_finding_names_the_other_threads(
    threads: Seq<ThreadUiModel>,
    file: Seq<char>,
    to: usize,
    others: Seq<usize>,
) -> (named: Seq<Seq<char>>)
    ensures
        lists::picks(
            named,
            others.len() as int,
            |k: int| others[k] != to && threads[others[k] as int].seed.slug.len() > 0,
            |k: int| threads[others[k] as int].seed.slug,
        ),
        finding(threads, file, to, others) == "another thread has uncommitted changes in "@
            + text::after_last(file, '/') + ": @"@ + text::joined(named, ", @"@)
            + ". worth a look before either lands."@,
{
    let n = others.len() as int;
    let out = |k: int| named_others(threads, to, others, k);
    let pick = |k: int| others[k] != to && threads[others[k] as int].seed.slug.len() > 0;
    let make = |k: int| threads[others[k] as int].seed.slug;
    assert forall|k: int| 0 <= k < n implies #[trigger] lists::picks_next(out, k, pick, make) by {}
    lists::lemma_picks(out, n, pick, make);
    named_others(threads, to, others, n)
}

/// What a finding says depends on what the threads are called and nothing else of them.
pub proof fn lemma_same_finding(
    a: Seq<ThreadUiModel>,
    b: Seq<ThreadUiModel>,
    file: Seq<char>,
    to: usize,
    others: Seq<usize>,
)
    requires
        forall|j: int|
            0 <= j < others.len() ==> a[#[trigger] others[j] as int].seed
                == b[others[j] as int].seed,
    ensures
        finding(a, file, to, others) == finding(b, file, to, others),
{
    lemma_same_names(a, b, to, others, others.len() as int);
}

proof fn lemma_same_names(
    a: Seq<ThreadUiModel>,
    b: Seq<ThreadUiModel>,
    to: usize,
    others: Seq<usize>,
    k: int,
)
    requires
        0 <= k <= others.len(),
        forall|j: int|
            0 <= j < others.len() ==> a[#[trigger] others[j] as int].seed
                == b[others[j] as int].seed,
    ensures
        named_others(a, to, others, k) == named_others(b, to, others, k),
    decreases k,
{
    if k > 0 {
        lemma_same_names(a, b, to, others, k - 1);
        assert(a[others[k - 1] as int].seed == b[others[k - 1] as int].seed);
    }
}

/// A thread is worth interrupting exactly when another one listed with it is dirty in a
/// line in which it is dirty too.
pub proof fn worth_interrupting_is_sharing_a_line(
    threads: Seq<ThreadUiModel>,
    to: usize,
    others: Seq<usize>,
)
    requires
        threads[to as int].seed.numbered(),
        forall|j: int|
            0 <= j < others.len() ==> threads[#[trigger] others[j] as int].seed.numbered(),
    ensures
        worth_interrupting(threads, to, others) <==> exists|j: int, line: int|
            0 <= j < others.len() && #[trigger] others[j] != to && #[trigger] dirty_at(
                threads[to as int],
                line,
            ) && dirty_at(threads[others[j] as int], line),
{
    let a = threads[to as int];
    if worth_interrupting(threads, to, others) {
        let k = choose|k: int|
            #![trigger others[k]]
            0 <= k < others.len() && others[k] != to && lines_collide(
                threads[to as int],
                threads[others[k] as int],
            );
        let b = threads[others[k] as int];
        let x = a.dirty_lines()->0;
        let y = b.dirty_lines()->0;
        let line = if x.start >= y.start {
            x.start as int
        } else {
            y.start as int
        };
        lemma_dirty_at(a, line);
        lemma_dirty_at(b, line);
        assert(others[k] != to && dirty_at(a, line) && dirty_at(threads[others[k] as int], line));
    }
    if exists|j: int, line: int|
        0 <= j < others.len() && #[trigger] others[j] != to && #[trigger] dirty_at(
            threads[to as int],
            line,
        ) && dirty_at(threads[others[j] as int], line) {
        let (j, line) = choose|j: int, line: int|
            0 <= j < others.len() && #[trigger] others[j] != to && #[trigger] dirty_at(
                threads[to as int],
                line,
            ) && dirty_at(threads[others[j] as int], line);
        lemma_dirty_at(a, line);
        lemma_dirty_at(threads[others[j] as int], line);
        assert(lines_collide(a, threads[others[j] as int]));
    }
}

/// Whether a line lies between the first and the last changed one.
pub open spec fn dirty_at(thread: ThreadUiModel, line: int) -> bool {
    let lines = thread.seed.diff_lines;
    lines.len() > 0 && lines[0].0 <= line <= lines[lines.len() - 1].0
}

proof fn lemma_dirty_at(thread: ThreadUiModel, line: int)
    requires
        thread.seed.numbered(),
    ensures
        dirty_at(thread, line) <==> thread.dirty_lines() is Some
            && thread.dirty_lines()->0.start <= line < thread.dirty_lines()->0.end,
{
    let lines = thread.seed.diff_lines;
    if lines.len() > 0 {
        assert(lines[lines.len() - 1].0 < u32::MAX);
    }
}

} // verus!
