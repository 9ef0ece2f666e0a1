//! What the orchestrator's pass promises: whom it tells, what, and when.

use std::ops::Range;

use vstd::prelude::*;

use crate::lists;
use crate::model::anchor;
use crate::model::anchor::BlockKind;
use crate::model::comment::Delivery;
use crate::seed;
use crate::shell::laws;
use crate::shell::signals;
use crate::shell::signals::ObservationModel;
use crate::shell::state;
use crate::shell::state::{Proactive, ReleaseModel, ShellModel};
use crate::shell::sweep::Schedule;
use crate::shell::threads::{CommentReplyModel, ProvenanceModel, ThreadUiModel, UiCommentModel};
use crate::shell::words;
use crate::text;

verus! {

/// Whether a thread was told of `file`: one comment more, at the end, held, the
/// workspace's finding, on the first lines of the thread's diff.
pub open spec fn told(
    was: ThreadUiModel,
    now: ThreadUiModel,
    finding: Seq<char>,
    file: Seq<char>,
) -> bool {
    let n = was.comments.len() as int;
    let c = now.comments[n];
    &&& now == ThreadUiModel { comments: now.comments, unread: true, ..was }
    &&& now.comments.len() == n + 1
    &&& forall|k: int| 0 <= k < n ==> #[trigger] now.comments[k] == was.comments[k]
    &&& c.about == Some(file)
    &&& c.body == finding
    &&& c.delivery == Delivery::Proposed
    &&& c.author == seed::ME
    &&& c.mentions == words::mentioned(text::words(finding))
    &&& c.origin == ProvenanceModel::Local
    &&& c.divergence is None
    &&& c.replies == Seq::<CommentReplyModel>::empty()
    &&& c.handle == words::slug_of(was.seed) + seq!['-'] + text::decimal((n + 1) as nat)
    &&& c.anchor == anchor::captured(
        was.diff_snapshot(),
        BlockKind::DiffHunk,
        Range {
            start: 0,
            end: if was.seed.diff_lines.len() >= 3 {
                3
            } else {
                was.seed.diff_lines.len() as u32
            },
        },
        false,
    )
    &&& c.resolved == was.resolved_in(c.anchor)
}

/// Whether a thread holds a finding about the file already, or turned it down.
pub open spec fn knows(m: ShellModel, file: Seq<char>, i: int) -> bool {
    ||| m.dismissed.contains((i as usize, file))
    ||| exists|k: int|
        0 <= k < m.threads[i].comments.len() && (#[trigger] m.threads[i].comments[k]).about
            == Some(file)
}

proof fn lemma_knows(m: ShellModel, file: Seq<char>, to: usize)
    ensures
        m.settled(file, to) == knows(m, file, to as int),
{
    let comments = m.threads[to as int].comments;
    if state::has_finding(comments, file) {
        let k = choose|k: int| 0 <= k < comments.len() && (#[trigger] comments[k]).is_about(file);
        assert(comments[k].about == Some(file));
    }
    if exists|k: int| 0 <= k < comments.len() && (#[trigger] comments[k]).about == Some(file) {
        let k = choose|k: int|
            0 <= k < comments.len() && (#[trigger] comments[k]).about == Some(file);
        assert(comments[k].is_about(file));
    }
}

/// Proposing tells one thread, unless it knows already, and changes nothing else.
pub proof fn proposing_tells_one_thread(
    m: ShellModel,
    file: Seq<char>,
    to: usize,
    others: Seq<usize>,
)
    requires
        to < m.threads.len(),
        m.next_id < u32::MAX,
    ensures
        ({
            let after = m.proposed(file, to, others);
            &&& knows(m, file, to as int) ==> after == m
            &&& !knows(m, file, to as int) ==> {
                &&& told(
                    m.threads[to as int],
                    after.threads[to as int],
                    signals::finding(m.threads, file, to, others),
                    file,
                )
                &&& after.threads[to as int].comments.last().id == m.next_id + 1
                &&& after.next_id == m.next_id + 1
                &&& after == ShellModel {
                    threads: after.threads,
                    next_id: after.next_id,
                    ..m
                }
                &&& after.threads.len() == m.threads.len()
                &&& forall|i: int|
                    0 <= i < m.threads.len() && i != to ==> #[trigger] after.threads[i]
                        == m.threads[i]
            }
        }),
{
    lemma_knows(m, file, to);
    if !m.settled(file, to) {
        let was = m.threads[to as int];
        let after = m.proposed(file, to, others);
        let now = after.threads[to as int];
        assert(was.next_handle() =~= words::slug_of(was.seed) + seq!['-'] + text::decimal(
            was.comments.len() + 1,
        ));
        assert(now =~= ThreadUiModel { comments: now.comments, unread: true, ..was });
    }
}

/// Whether observation `o` lists thread `i` among its first `k`.
pub open spec fn listed(o: ObservationModel, k: int, i: int) -> bool {
    exists|j: int| 0 <= j < k && #[trigger] o.threads[j] == i
}

/// Whether thread `i` was told what it did not know.
pub open spec fn told_if_new(
    m: ShellModel,
    after: ShellModel,
    o: ObservationModel,
    i: int,
) -> bool {
    if knows(m, o.file, i) {
        after.threads[i] == m.threads[i]
    } else {
        &&& told(
            m.threads[i],
            after.threads[i],
            signals::finding(m.threads, o.file, i as usize, o.threads),
            o.file,
        )
        &&& m.next_id < after.threads[i].comments.last().id <= after.next_id
    }
}

proof fn lemma_one_raised(m: ShellModel, o: ObservationModel, k: int)
    requires
        0 <= k <= o.threads.len(),
        laws::lists_threads(o, m.threads.len()),
        o.threads.no_duplicates(),
        m.next_id + k <= u32::MAX,
    ensures
        ({
            let after = m.raised(o, k);
            &&& after.threads.len() == m.threads.len()
            &&& m.next_id <= after.next_id <= m.next_id + k
            &&& after.dismissed == m.dismissed
            &&& forall|i: int|
                #![trigger after.threads[i]]
                0 <= i < m.threads.len() ==> {
                    &&& after.threads[i].seed == m.threads[i].seed
                    &&& listed(o, k, i) ==> told_if_new(m, after, o, i)
                    &&& !listed(o, k, i) ==> after.threads[i] == m.threads[i]
                }
        }),
    decreases k,
{
    if k > 0 {
        lemma_one_raised(m, o, k - 1);
        let before = m.raised(o, k - 1);
        let after = m.raised(o, k);
        let to = o.threads[k - 1];
        assert(!listed(o, k - 1, to as int)) by {
            if listed(o, k - 1, to as int) {
                let j = choose|j: int| 0 <= j < k - 1 && #[trigger] o.threads[j] == to as int;
                assert(o.threads[j] == o.threads[k - 1]);
            }
        }
        assert(before.threads[to as int] == m.threads[to as int]);
        proposing_tells_one_thread(before, o.file, to, o.threads);
        assert(knows(before, o.file, to as int) == knows(m, o.file, to as int));
        assert forall|j: int| 0 <= j < o.threads.len() implies before.threads[
        #[trigger] o.threads[j] as int].seed == m.threads[o.threads[j] as int].seed by {
            assert(o.threads[j] < m.threads.len());
        }
        signals::lemma_same_finding(before.threads, m.threads, o.file, to, o.threads);
        assert forall|i: int|
            #![trigger after.threads[i]]
            0 <= i < m.threads.len() implies {
            &&& after.threads[i].seed == m.threads[i].seed
            &&& listed(o, k, i) ==> told_if_new(m, after, o, i)
            &&& !listed(o, k, i) ==> after.threads[i] == m.threads[i]
        } by {
            assert(before.threads[i].seed == m.threads[i].seed);
            if i == to {
                assert(o.threads[k - 1] == i);
                assert(listed(o, k, i));
            } else {
                if listed(o, k, i) {
                    let j = choose|j: int| 0 <= j < k && #[trigger] o.threads[j] == i;
                    assert(o.threads[j] == i && j < k - 1);
                    assert(listed(o, k - 1, i));
                }
                if listed(o, k - 1, i) {
                    let j = choose|j: int| 0 <= j < k - 1 && #[trigger] o.threads[j] == i;
                    assert(o.threads[j] == i);
                    assert(listed(o, k, i));
                }
            }
        }
    }
}

/// Whether each observation lists threads that exist, each once, and no other lists
/// any of them.
pub open spec fn apart(found: Seq<ObservationModel>, n: nat) -> bool {
    &&& forall|g: int|
        0 <= g < found.len() ==> laws::lists_threads(#[trigger] found[g], n)
            && found[g].threads.no_duplicates()
    &&& forall|g: int, h: int, i: int|
        0 <= g < found.len() && 0 <= h < found.len() && #[trigger] listed(
            found[g],
            found[g].threads.len() as int,
            i,
        ) && #[trigger] listed(found[h], found[h].threads.len() as int, i) ==> g == h
}

proof fn lemma_every_one_raised(m: ShellModel, found: Seq<ObservationModel>, g: int)
    requires
        0 <= g <= found.len(),
        apart(found, m.threads.len()),
        m.next_id + signals::listed(found.take(g)) <= u32::MAX,
    ensures
        ({
            let after = m.all_raised(found, g);
            &&& after.threads.len() == m.threads.len()
            &&& m.next_id <= after.next_id <= m.next_id + signals::listed(found.take(g))
            &&& after.dismissed == m.dismissed
            &&& forall|i: int|
                #![trigger after.threads[i]]
                0 <= i < m.threads.len() ==> {
                    &&& after.threads[i].seed == m.threads[i].seed
                    &&& forall|h: int|
                        0 <= h < g && #[trigger] listed(found[h], found[h].threads.len() as int, i)
                            ==> told_if_new(m, after, found[h], i)
                    &&& (forall|h: int|
                        0 <= h < g ==> !#[trigger] listed(
                            found[h],
                            found[h].threads.len() as int,
                            i,
                        )) ==> after.threads[i] == m.threads[i]
                }
        }),
    decreases g,
{
    if g > 0 {
        assert(found.take(g).drop_last() =~= found.take(g - 1));
        assert(found.take(g).last() == found[g - 1]);
        lemma_every_one_raised(m, found, g - 1);
        let before = m.all_raised(found, g - 1);
        let after = m.all_raised(found, g);
        let o = found[g - 1];
        let k = o.threads.len() as int;
        assert(laws::lists_threads(o, m.threads.len()));
        lemma_one_raised(before, o, k);
        assert forall|i: int|
            #![trigger after.threads[i]]
            0 <= i < m.threads.len() implies {
            &&& after.threads[i].seed == m.threads[i].seed
            &&& forall|h: int|
                0 <= h < g && #[trigger] listed(found[h], found[h].threads.len() as int, i)
                    ==> told_if_new(m, after, found[h], i)
            &&& (forall|h: int|
                0 <= h < g ==> !#[trigger] listed(found[h], found[h].threads.len() as int, i))
                ==> after.threads[i] == m.threads[i]
        } by {
            assert(before.threads[i].seed == m.threads[i].seed);
            if listed(o, k, i) {
                assert forall|h: int| 0 <= h < g - 1 implies !#[trigger] listed(
                    found[h],
                    found[h].threads.len() as int,
                    i,
                ) by {
                    if listed(found[h], found[h].threads.len() as int, i) {
                        assert(listed(found[g - 1], found[g - 1].threads.len() as int, i));
                    }
                }
                assert(before.threads[i] == m.threads[i]);
                assert(knows(before, o.file, i) == knows(m, o.file, i));
                assert forall|j: int| 0 <= j < o.threads.len() implies before.threads[
                #[trigger] o.threads[j] as int].seed == m.threads[o.threads[j] as int].seed by {
                    assert(o.threads[j] < m.threads.len());
                }
                signals::lemma_same_finding(
                    before.threads,
                    m.threads,
                    o.file,
                    i as usize,
                    o.threads,
                );
                assert(told_if_new(m, after, o, i));
                assert forall|h: int|
                    0 <= h < g && #[trigger] listed(
                        found[h],
                        found[h].threads.len() as int,
                        i,
                    ) implies told_if_new(m, after, found[h], i) by {
                    assert(h == g - 1);
                }
            } else {
                assert(after.threads[i] == before.threads[i]);
            }
        }
    }
}

proof fn lemma_observations_are_apart(threads: Seq<ThreadUiModel>)
    requires
        threads.len() <= u32::MAX,
    ensures
        apart(signals::observed(threads), threads.len()),
{
    let found = signals::observed(threads);
    signals::observations_are_the_shared_files(threads);
    signals::observations_come_in_thread_order(threads);
    assert forall|g: int| 0 <= g < found.len() implies laws::lists_threads(
        #[trigger] found[g],
        threads.len(),
    ) && found[g].threads.no_duplicates() by {
        assert forall|j: int| 0 <= j < found[g].threads.len() implies #[trigger] found[g].threads[j]
            < threads.len() by {
            signals::lemma_observed_exist(threads, g, j);
        }
        assert forall|a: int, b: int|
            0 <= a < found[g].threads.len() && 0 <= b < found[g].threads.len() && a
                != b implies found[g].threads[a] != found[g].threads[b] by {
            if a < b {
                assert(found[g].threads[a] < found[g].threads[b]);
            } else {
                assert(found[g].threads[b] < found[g].threads[a]);
            }
        }
    }
    assert forall|g: int, h: int, i: int|
        0 <= g < found.len() && 0 <= h < found.len() && #[trigger] listed(
            found[g],
            found[g].threads.len() as int,
            i,
        ) && #[trigger] listed(found[h], found[h].threads.len() as int, i) implies g == h by {
        let a = choose|j: int|
            0 <= j < found[g].threads.len() && #[trigger] found[g].threads[j] == i;
        let b = choose|j: int|
            0 <= j < found[h].threads.len() && #[trigger] found[h].threads[j] == i;
        signals::lemma_observed_exist(threads, g, a);
        signals::lemma_observed_exist(threads, h, b);
        assert(found[g].file == found[h].file);
        if g < h {
            assert(found[g].file != found[h].file);
        }
        if h < g {
            assert(found[h].file != found[g].file);
        }
    }
}

/// While the workspace is noticing things, a sweep tells every thread of everything
/// noticed that it is involved in, unless it knows: one comment more, held, at the end.
/// A thread involved in nothing is left as it was.
pub proof fn a_sweep_tells_everyone_involved_once(m: ShellModel, i: int, g: int)
    requires
        m.threads.len() <= u32::MAX,
        m.proactive != Proactive::Off,
        m.next_id + m.threads.len() <= u32::MAX,
        0 <= i < m.threads.len(),
    ensures
        ({
            let found = signals::observed(m.threads);
            let after = m.swept().0;
            &&& 0 <= g < found.len() && listed(found[g], found[g].threads.len() as int, i)
                ==> told_if_new(m, after, found[g], i)
            &&& (forall|h: int|
                0 <= h < found.len() ==> !#[trigger] listed(
                    found[h],
                    found[h].threads.len() as int,
                    i,
                )) ==> after.threads[i] == m.threads[i]
        }),
{
    reveal(ShellModel::swept);
    let found = signals::observed(m.threads);
    signals::observations_are_the_shared_files(m.threads);
    lemma_observations_are_apart(m.threads);
    assert(found.take(found.len() as int) =~= found);
    lemma_every_one_raised(m, found, found.len() as int);
    let raised = m.all_raised(found, found.len() as int);
    assert(raised.threads[i].seed == m.threads[i].seed);
    assert(m.swept().0.threads == raised.threads);
    assert(m.swept().0.next_id == raised.next_id);
}

/// In auto mode, whatever is worth interrupting a thread for has been scheduled once a
/// sweep is over; outside it nothing new is.
pub proof fn a_sweep_schedules_everything_worth_it(m: ShellModel, g: int, j: int)
    requires
        m.threads.len() <= u32::MAX,
    ensures
        m.proactive != Proactive::Auto ==> m.swept().1.len() == 0 && m.swept().0.auto_scheduled
            == m.auto_scheduled,
        ({
            let found = signals::observed(m.threads);
            m.proactive == Proactive::Auto && 0 <= g < found.len() && 0 <= j
                < found[g].threads.len() && signals::worth_interrupting(
                m.threads,
                found[g].threads[j],
                found[g].threads,
            ) ==> m.swept().0.auto_scheduled.contains((found[g].threads[j], found[g].file))
        }),
{
    reveal(ShellModel::swept);
    let found = signals::observed(m.threads);
    if m.proactive != Proactive::Off {
        laws::lemma_observed_listed(m);
        laws::lemma_all_raised(m, found, found.len() as int);
        let raised = m.all_raised(found, found.len() as int);
        assert forall|i: int| 0 <= i < m.threads.len() implies (#[trigger] raised.threads[i]).seed
            == m.threads[i].seed && raised.threads[i].agent_busy == m.threads[i].agent_busy by {}
        laws::lemma_same_observed(m.threads, raised.threads, m.threads.len() as int);
        assert(signals::observed(raised.threads) == found);
        if m.proactive == Proactive::Auto {
            let start = Schedule { seen: raised.auto_scheduled, due: Seq::empty() };
            laws::lemma_plan_covers(start, raised.threads, found, found.len() as int);
            let plan = start.planned(raised.threads, found, found.len() as int);
            if 0 <= g < found.len() && 0 <= j < found[g].threads.len()
                && signals::worth_interrupting(m.threads, found[g].threads[j], found[g].threads) {
                let others = found[g].threads;
                let to = others[j];
                let k = choose|k: int|
                    #![trigger others[k]]
                    0 <= k < others.len() && others[k] != to && signals::lines_collide(
                        m.threads[to as int],
                        m.threads[others[k] as int],
                    );
                assert(laws::lists_threads(found[g], m.threads.len()));
                assert(others[j] < m.threads.len() && others[k] < m.threads.len());
                assert(raised.threads[to as int].seed == m.threads[to as int].seed);
                assert(raised.threads[others[k] as int].seed == m.threads[others[k] as int].seed);
                assert(signals::worth_interrupting(raised.threads, to, others));
                assert(laws::covered(plan, raised.threads, found[g], others.len() as int));
            }
        }
    }
}

/// Putting the workspace in a mode puts it in that mode, forgets what was scheduled
/// unless the mode is auto, and sweeps: a second sweep would do nothing.
pub proof fn a_mode_takes_effect_at_once(m: ShellModel, mode: Proactive)
    requires
        m.threads.len() <= u32::MAX,
    ensures
        ({
            let (after, due) = m.in_mode(mode);
            &&& after.proactive == mode
            &&& mode == Proactive::Off ==> after == ShellModel {
                proactive: mode,
                auto_scheduled: Seq::empty(),
                ..m
            } && due.len() == 0
            &&& mode == Proactive::Manual ==> after.auto_scheduled.len() == 0 && due.len() == 0
            &&& mode == Proactive::Auto ==> after.auto_scheduled == m.auto_scheduled + Seq::new(
                due.len(),
                |k: int| (due[k].thread, due[k].file),
            )
            &&& after.swept() == (after, Seq::<ReleaseModel>::empty())
        }),
{
    let set = ShellModel {
        proactive: mode,
        auto_scheduled: if mode == Proactive::Auto {
            m.auto_scheduled
        } else {
            Seq::empty()
        },
        ..m
    };
    laws::a_sweep_only_raises_held_findings(set);
    laws::a_sweep_remembers_what_it_hands_out(set);
    laws::sweeping_again_changes_nothing(set);
    a_sweep_schedules_everything_worth_it(set, 0, 0);
}

/// In auto mode a release arms the first finding about the file that is held in its
/// thread, and changes nothing else; where none is held, or in another mode, it
/// changes nothing.
pub proof fn a_release_arms_the_held_finding(m: ShellModel, to: usize, file: Seq<char>, k: int)
    ensures
        ({
            let comments = m.threads[to as int].comments;
            let held = |j: int|
                0 <= j < comments.len() && comments[j].about == Some(file)
                    && comments[j].delivery == Delivery::Proposed;
            let after = m.released(to, file);
            &&& m.proactive == Proactive::Auto && to < m.threads.len() && held(k) && (forall|
                j: int|
                j < k ==> !#[trigger] held(j)) ==> after == ShellModel {
                threads: m.threads.update(
                    to as int,
                    ThreadUiModel {
                        comments: comments.update(
                            k,
                            UiCommentModel { delivery: Delivery::Pending, ..comments[k] },
                        ),
                        ..m.threads[to as int]
                    },
                ),
                ..m
            }
            &&& m.proactive != Proactive::Auto || to >= m.threads.len() || (forall|j: int|
                !#[trigger] held(j)) ==> after == m
        }),
{
    let comments = m.threads[to as int].comments;
    let held = |j: int|
        0 <= j < comments.len() && comments[j].about == Some(file) && comments[j].delivery
            == Delivery::Proposed;
    let p = |c: UiCommentModel| c.is_about(file) && c.delivery == Delivery::Proposed;
    lists::lemma_position(comments, p);
    lists::a_place_is_the_first(comments, p, k);
    assert forall|j: int| 0 <= j < comments.len() implies p(comments[j]) == #[trigger] held(j) by {}
    if held(k) && (forall|j: int| j < k ==> !#[trigger] held(j)) {
        assert forall|j: int| 0 <= j < k implies !p(#[trigger] comments[j]) by {
            assert(!held(j));
        }
        lists::lemma_is_position(comments, p, k);
    }
    if forall|j: int| !#[trigger] held(j) {
        assert forall|j: int| 0 <= j < comments.len() implies !p(#[trigger] comments[j]) by {
            assert(!held(j));
        }
    }
}

/// Letting a finding through makes it pending and changes nothing else; keeping it out
/// takes it, and only it, from the thread, and what it was about is remembered.
pub proof fn an_answer_lets_through_or_takes_away(m: ShellModel, id: u32, k: int)
    requires
        m.active < m.threads.len(),
        0 <= k < m.current().comments.len(),
        m.current().comments[k].id == id,
        forall|j: int| 0 <= j < k ==> (#[trigger] m.current().comments[j]).id != id,
    ensures
        ({
            let was = m.current();
            let c = was.comments[k];
            let shown = m.answered(id, true);
            let kept = m.answered(id, false);
            let left = kept.current().comments;
            &&& shown == ShellModel {
                threads: m.threads.update(
                    m.active as int,
                    ThreadUiModel {
                        comments: was.comments.update(
                            k,
                            UiCommentModel { delivery: Delivery::Pending, ..c },
                        ),
                        ..was
                    },
                ),
                ..m
            }
            &&& kept == ShellModel { threads: kept.threads, dismissed: kept.dismissed, ..m }
            &&& kept.threads == m.threads.update(m.active as int, kept.current())
            &&& kept.current() == ThreadUiModel { comments: left, ..was }
            &&& left.len() == was.comments.len() - 1
            &&& forall|j: int| 0 <= j < k ==> #[trigger] left[j] == was.comments[j]
            &&& forall|j: int| k <= j < left.len() ==> #[trigger] left[j] == was.comments[j + 1]
            &&& c.about matches Some(file) ==> kept.dismissed == m.dismissed.push((m.active, file))
            &&& c.about is None ==> kept.dismissed == m.dismissed
        }),
{
    let p = |c: UiCommentModel| c.id == id;
    lists::lemma_is_position(m.current().comments, p, k);
}

/// Which thread each release is for, and about which file.
pub open spec fn pairs(due: Seq<ReleaseModel>) -> Seq<(usize, Seq<char>)> {
    due.map_values(|r: ReleaseModel| (r.thread, r.file))
}

/// Whether the schedule remembers what was scheduled before and what is due.
spec fn remembers(s: Schedule, was: Seq<(usize, Seq<char>)>) -> bool {
    s.seen == was + pairs(s.due)
}

proof fn lemma_new_in_one(
    s: Schedule,
    was: Seq<(usize, Seq<char>)>,
    threads: Seq<ThreadUiModel>,
    o: ObservationModel,
    k: int,
)
    requires
        0 <= k <= o.threads.len(),
        remembers(s, was),
    ensures
        ({
            let t = s.with_observation(threads, o, k);
            let n = s.due.len() as int;
            &&& n <= t.due.len()
            &&& t.due.take(n) == s.due
            &&& remembers(t, was)
            &&& forall|i: int|
                n <= i < t.due.len() ==> (#[trigger] t.due[i]).file == o.file && listed(
                    o,
                    k,
                    t.due[i].thread as int,
                )
        }),
    decreases k,
{
    let n = s.due.len() as int;
    let t = s.with_observation(threads, o, k);
    if k > 0 {
        lemma_new_in_one(s, was, threads, o, k - 1);
        let b = s.with_observation(threads, o, k - 1);
        if t.due.len() > b.due.len() {
            assert(t.due.take(n) =~= b.due.take(n));
            assert(t.seen =~= was + pairs(t.due));
        }
        assert forall|i: int| n <= i < t.due.len() implies (#[trigger] t.due[i]).file == o.file
            && listed(o, k, t.due[i].thread as int) by {
            if i < b.due.len() {
                assert(t.due[i] == b.due[i]);
                let j = choose|j: int|
                    0 <= j < k - 1 && #[trigger] o.threads[j] == b.due[i].thread as int;
                assert(o.threads[j] == t.due[i].thread as int);
            } else {
                assert(o.threads[k - 1] == t.due[i].thread as int);
            }
        }
    } else {
        assert(t.due.take(n) =~= s.due);
    }
}

/// Whether thread `k` of the observation is worth interrupting, and was not scheduled.
pub open spec fn becomes_due(
    was: Seq<(usize, Seq<char>)>,
    threads: Seq<ThreadUiModel>,
    o: ObservationModel,
    k: int,
) -> bool {
    signals::worth_interrupting(threads, o.threads[k], o.threads) && !was.contains(
        (o.threads[k], o.file),
    )
}

proof fn lemma_one_in_order(
    s: Schedule,
    was: Seq<(usize, Seq<char>)>,
    threads: Seq<ThreadUiModel>,
    o: ObservationModel,
)
    requires
        remembers(s, was),
        o.threads.no_duplicates(),
        forall|i: int| 0 <= i < s.due.len() ==> (#[trigger] s.due[i]).file != o.file,
    ensures
        lists::picks(
            pairs(s.with_observation(threads, o, o.threads.len() as int).due).skip(
                s.due.len() as int,
            ),
            o.threads.len() as int,
            |k: int| becomes_due(was, threads, o, k),
            |k: int| (o.threads[k], o.file),
        ),
{
    let n = s.due.len() as int;
    let len = o.threads.len() as int;
    let out = |k: int| pairs(s.with_observation(threads, o, k).due).skip(n);
    let pick = |k: int| becomes_due(was, threads, o, k);
    let make = |k: int| (o.threads[k], o.file);
    assert(out(0) =~= Seq::<(usize, Seq<char>)>::empty());
    assert forall|k: int| 0 <= k < len implies #[trigger] lists::picks_next(
        out,
        k,
        pick,
        make,
    ) by {
        lemma_new_in_one(s, was, threads, o, k);
        let b = s.with_observation(threads, o, k);
        let t = s.with_observation(threads, o, k + 1);
        let e = (o.threads[k], o.file);
        assert(b.seen.contains(e) == was.contains(e)) by {
            if was.contains(e) {
                let j = choose|j: int| 0 <= j < was.len() && was[j] == e;
                assert(b.seen[j] == e);
            }
            if b.seen.contains(e) {
                let j = choose|j: int| 0 <= j < b.seen.len() && b.seen[j] == e;
                if j < was.len() {
                    assert(was[j] == e);
                } else {
                    let i = j - was.len();
                    assert(b.due[i].thread == e.0 && b.due[i].file == e.1);
                    if i < n {
                        assert(s.due[i] == b.due.take(n)[i]);
                    } else {
                        let l = choose|l: int|
                            0 <= l < k && #[trigger] o.threads[l] == b.due[i].thread as int;
                        assert(o.threads[l] == o.threads[k]);
                    }
                }
            }
        }
        if pick(k) {
            assert(out(k + 1) =~= out(k).push(make(k)));
        }
    }
    lists::lemma_picks(out, len, pick, make);
}

/// Whether each part is what became due of one observation, in the order of its threads.
pub open spec fn due_in_order(
    due: Seq<ReleaseModel>,
    was: Seq<(usize, Seq<char>)>,
    threads: Seq<ThreadUiModel>,
    found: Seq<ObservationModel>,
    g: int,
    parts: Seq<Seq<(usize, Seq<char>)>>,
) -> bool {
    &&& pairs(due) == parts.flatten()
    &&& parts.len() == g
    &&& forall|h: int|
        0 <= h < g ==> lists::picks(
            #[trigger] parts[h],
            found[h].threads.len() as int,
            |k: int| becomes_due(was, threads, found[h], k),
            |k: int| (found[h].threads[k], found[h].file),
        )
}

proof fn lemma_all_in_order(
    was: Seq<(usize, Seq<char>)>,
    threads: Seq<ThreadUiModel>,
    found: Seq<ObservationModel>,
    g: int,
) -> (parts: Seq<Seq<(usize, Seq<char>)>>)
    requires
        0 <= g <= found.len(),
        signals::distinct_files(found),
        forall|h: int| 0 <= h < found.len() ==> (#[trigger] found[h]).threads.no_duplicates(),
    ensures
        ({
            let s = (Schedule { seen: was, due: Seq::empty() }).planned(threads, found, g);
            &&& remembers(s, was)
            &&& due_in_order(s.due, was, threads, found, g, parts)
            &&& forall|i: int|
                0 <= i < s.due.len() ==> exists|h: int|
                    0 <= h < g && (#[trigger] found[h]).file == (#[trigger] s.due[i]).file
        }),
    decreases g,
{
    let s = (Schedule { seen: was, due: Seq::empty() }).planned(threads, found, g);
    if g == 0 {
        let parts = Seq::<Seq<(usize, Seq<char>)>>::empty();
        lists::lemma_flattened(parts, Seq::empty());
        assert(s.seen =~= was + pairs(s.due));
        assert(pairs(s.due) =~= Seq::<(usize, Seq<char>)>::empty());
        parts
    } else {
        let before = lemma_all_in_order(was, threads, found, g - 1);
        let b = (Schedule { seen: was, due: Seq::empty() }).planned(threads, found, g - 1);
        let o = found[g - 1];
        let n = b.due.len() as int;
        assert forall|i: int| 0 <= i < b.due.len() implies (#[trigger] b.due[i]).file
            != o.file by {
            let h = choose|h: int|
                0 <= h < g - 1 && (#[trigger] found[h]).file == b.due[i].file;
            assert(found[h].file != found[g - 1].file);
        }
        lemma_new_in_one(b, was, threads, o, o.threads.len() as int);
        lemma_one_in_order(b, was, threads, o);
        let last = pairs(s.due).skip(n);
        lists::lemma_flattened(before, last);
        assert(pairs(s.due) =~= pairs(b.due) + last) by {
            assert forall|i: int| 0 <= i < n implies s.due[i] == b.due[i] by {
                assert(s.due[i] == s.due.take(n)[i]);
            }
        }
        let parts = before.push(last);
        assert forall|h: int| 0 <= h < g implies lists::picks(
            #[trigger] parts[h],
            found[h].threads.len() as int,
            |k: int| becomes_due(was, threads, found[h], k),
            |k: int| (found[h].threads[k], found[h].file),
        ) by {
            if h < g - 1 {
                assert(parts[h] == before[h]);
            }
        }
        assert forall|i: int| 0 <= i < s.due.len() implies exists|h: int|
            0 <= h < g && (#[trigger] found[h]).file == (#[trigger] s.due[i]).file by {
            if i < n {
                assert(s.due[i] == s.due.take(n)[i]);
                assert(b.due[i] == s.due[i]);
                let h = choose|h: int|
                    0 <= h < g - 1 && (#[trigger] found[h]).file == b.due[i].file;
                assert(found[h].file == s.due[i].file);
            } else {
                assert(found[g - 1].file == s.due[i].file);
            }
        }
        parts
    }
}

/// What a sweep schedules in auto mode comes in the order it was noticed: for each thing
/// noticed, each thread of it that is worth interrupting and was not scheduled before.
pub proof fn releases_come_as_things_were_noticed(m: ShellModel) -> (parts: Seq<
    Seq<(usize, Seq<char>)>,
>)
    requires
        m.threads.len() <= u32::MAX,
        m.proactive == Proactive::Auto,
    ensures
        due_in_order(
            m.swept().1,
            m.auto_scheduled,
            m.threads,
            signals::observed(m.threads),
            signals::observed(m.threads).len() as int,
            parts,
        ),
{
    reveal(ShellModel::swept);
    let found = signals::observed(m.threads);
    laws::lemma_observed_listed(m);
    laws::lemma_all_raised(m, found, found.len() as int);
    let raised = m.all_raised(found, found.len() as int);
    assert forall|i: int| 0 <= i < m.threads.len() implies (#[trigger] raised.threads[i]).seed
        == m.threads[i].seed && raised.threads[i].agent_busy == m.threads[i].agent_busy by {}
    laws::lemma_same_observed(m.threads, raised.threads, m.threads.len() as int);
    signals::observations_are_the_shared_files(m.threads);
    lemma_observations_are_apart(m.threads);
    let g = found.len() as int;
    let parts = lemma_all_in_order(raised.auto_scheduled, raised.threads, found, g);
    assert forall|h: int| 0 <= h < g implies lists::picks(
        #[trigger] parts[h],
        found[h].threads.len() as int,
        |k: int| becomes_due(m.auto_scheduled, m.threads, found[h], k),
        |k: int| (found[h].threads[k], found[h].file),
    ) by {
        let o = found[h];
        let p = |k: int| becomes_due(raised.auto_scheduled, raised.threads, o, k);
        let q = |k: int| becomes_due(m.auto_scheduled, m.threads, o, k);
        let f = |k: int| (o.threads[k], o.file);
        assert(laws::lists_threads(o, m.threads.len()));
        assert forall|k: int| 0 <= k < o.threads.len() implies #[trigger] p(k)
            == q(k) by {
            lemma_same_worth(raised.threads, m.threads, o, k);
        }
        let at = choose|at: Seq<int>|
            #[trigger] lists::picked(parts[h], o.threads.len() as int, p, f, at);
        assert(lists::picked(parts[h], o.threads.len() as int, q, f, at));
    }
    parts
}

proof fn lemma_same_worth(
    a: Seq<ThreadUiModel>,
    b: Seq<ThreadUiModel>,
    o: ObservationModel,
    k: int,
)
    requires
        a.len() == b.len(),
        laws::lists_threads(o, a.len()),
        0 <= k < o.threads.len(),
        forall|i: int| 0 <= i < a.len() ==> (#[trigger] a[i]).seed == b[i].seed,
    ensures
        signals::worth_interrupting(a, o.threads[k], o.threads) == signals::worth_interrupting(
            b,
            o.threads[k],
            o.threads,
        ),
{
    let to = o.threads[k];
    assert forall|j: int| 0 <= j < o.threads.len() implies signals::lines_collide(
        a[to as int],
        a[#[trigger] o.threads[j] as int],
    ) == signals::lines_collide(b[to as int], b[o.threads[j] as int]) by {
        assert(o.threads[j] < a.len() && o.threads[k] < a.len());
        assert(a[to as int].seed == b[to as int].seed);
        assert(a[o.threads[j] as int].seed == b[o.threads[j] as int].seed);
    }
    if signals::worth_interrupting(a, to, o.threads) {
        let j = choose|j: int|
            #![trigger o.threads[j]]
            0 <= j < o.threads.len() && o.threads[j] != to && signals::lines_collide(
                a[to as int],
                a[o.threads[j] as int],
            );
        assert(o.threads[j] != to);
    }
    if signals::worth_interrupting(b, to, o.threads) {
        let j = choose|j: int|
            #![trigger o.threads[j]]
            0 <= j < o.threads.len() && o.threads[j] != to && signals::lines_collide(
                b[to as int],
                b[o.threads[j] as int],
            );
        assert(o.threads[j] != to);
    }
}

} // verus!
