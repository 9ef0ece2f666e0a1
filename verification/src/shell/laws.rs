//! What holds across the shell's operations.

use vstd::prelude::*;

use crate::lists;
use crate::model::comment::Delivery;
use crate::model::transport::{EnvelopeModel, SendError};
use crate::seed;
use crate::shell::cards::ReceiptStatus;
use crate::shell::forwarding;
use crate::shell::signals;
use crate::shell::signals::ObservationModel;
use crate::shell::state;
use crate::shell::state::{Proactive, ReleaseModel, ShellModel};
use crate::shell::sweep::Schedule;
use crate::shell::threads;
use crate::shell::threads::{
    AgentReplyModel, ProvenanceModel, Target, ThreadUiModel, UiCommentModel,
};
use crate::shell::turns;
use crate::shell::words;
use crate::text;

verus! {

// ------------------------------------------------------------------ sweeps --

/// What a sweep leaves alone: everything but the comments and the unread marks
/// of threads; and comments are only added, held, each a finding.
pub open spec fn only_raises(a: ShellModel, b: ShellModel) -> bool {
    &&& b.target == a.target
    &&& b.composer == a.composer
    &&& b.mention_sel == a.mention_sel
    &&& b.picker_dismissed == a.picker_dismissed
    &&& b.forwarding == a.forwarding
    &&& b.view == a.view
    &&& b.put_back == a.put_back
    &&& b.demo == a.demo
    &&& b.dismissed == a.dismissed
    &&& b.proactive == a.proactive
    &&& b.auto_scheduled == a.auto_scheduled
    &&& b.active == a.active
    &&& b.threads.len() == a.threads.len()
    &&& forall|i: int|
        #![trigger b.threads[i]]
        0 <= i < a.threads.len() ==> {
            &&& b.threads[i].seed == a.threads[i].seed
            &&& b.threads[i].agent_busy == a.threads[i].agent_busy
            &&& b.threads[i].turn == a.threads[i].turn
            &&& b.threads[i].replies == a.threads[i].replies
            &&& b.threads[i].sent == a.threads[i].sent
            &&& b.threads[i].unread == (a.threads[i].unread || a.threads[i].comments.len()
                < b.threads[i].comments.len())
            &&& a.threads[i].comments.len() <= b.threads[i].comments.len()
            &&& forall|k: int|
                #![trigger b.threads[i].comments[k]]
                0 <= k < b.threads[i].comments.len() ==> if k < a.threads[i].comments.len() {
                    b.threads[i].comments[k] == a.threads[i].comments[k]
                } else {
                    b.threads[i].comments[k].delivery == Delivery::Proposed
                        && b.threads[i].comments[k].about is Some
                }
        }
}

proof fn lemma_only_raises_chain(a: ShellModel, b: ShellModel, c: ShellModel)
    requires
        only_raises(a, b),
        only_raises(b, c),
    ensures
        only_raises(a, c),
{
    assert forall|i: int|
        #![trigger c.threads[i]]
        0 <= i < a.threads.len() implies {
        &&& c.threads[i].seed == a.threads[i].seed
        &&& c.threads[i].agent_busy == a.threads[i].agent_busy
        &&& c.threads[i].turn == a.threads[i].turn
        &&& c.threads[i].replies == a.threads[i].replies
        &&& c.threads[i].sent == a.threads[i].sent
        &&& c.threads[i].unread == (a.threads[i].unread || a.threads[i].comments.len()
            < c.threads[i].comments.len())
        &&& a.threads[i].comments.len() <= c.threads[i].comments.len()
        &&& forall|k: int|
            #![trigger c.threads[i].comments[k]]
            0 <= k < c.threads[i].comments.len() ==> if k < a.threads[i].comments.len() {
                c.threads[i].comments[k] == a.threads[i].comments[k]
            } else {
                c.threads[i].comments[k].delivery == Delivery::Proposed
                    && c.threads[i].comments[k].about is Some
            }
    } by {
        assert(b.threads[i].seed == a.threads[i].seed);
        assert forall|k: int|
            #![trigger c.threads[i].comments[k]]
            0 <= k < c.threads[i].comments.len() implies if k < a.threads[i].comments.len() {
            c.threads[i].comments[k] == a.threads[i].comments[k]
        } else {
            c.threads[i].comments[k].delivery == Delivery::Proposed
                && c.threads[i].comments[k].about is Some
        } by {
            if k < b.threads[i].comments.len() {
                assert(c.threads[i].comments[k] == b.threads[i].comments[k]);
            }
        }
    }
}

proof fn lemma_proposed_raises(m: ShellModel, file: Seq<char>, to: usize, others: Seq<usize>)
    requires
        to < m.threads.len(),
    ensures
        only_raises(m, m.proposed(file, to, others)),
        m.proposed(file, to, others).settled(file, to),
{
    let after = m.proposed(file, to, others);
    if !m.settled(file, to) {
        let k = m.threads[to as int].comments.len() as int;
        assert(after.threads[to as int].comments[k].is_about(file));
    }
}

/// What was settled stays settled while findings are only raised.
proof fn lemma_settled_stays(a: ShellModel, b: ShellModel, file: Seq<char>, to: usize)
    requires
        only_raises(a, b),
        to < a.threads.len(),
        a.settled(file, to),
    ensures
        b.settled(file, to),
{
    if !a.dismissed.contains((to, file)) {
        let comments = a.threads[to as int].comments;
        let k = choose|k: int| 0 <= k < comments.len() && (#[trigger] comments[k]).is_about(file);
        assert(b.threads[to as int].comments[k] == comments[k]);
    }
}

/// An observation lists threads that exist.
pub open spec fn lists_threads(o: ObservationModel, n: nat) -> bool {
    forall|j: int| 0 <= j < o.threads.len() ==> #[trigger] o.threads[j] < n
}

proof fn lemma_raised(m: ShellModel, o: ObservationModel, k: int)
    requires
        0 <= k <= o.threads.len(),
        lists_threads(o, m.threads.len()),
    ensures
        only_raises(m, m.raised(o, k)),
        forall|j: int|
            0 <= j < k ==> m.raised(o, k).settled(o.file, #[trigger] o.threads[j]),
    decreases k,
{
    if k > 0 {
        lemma_raised(m, o, k - 1);
        let before = m.raised(o, k - 1);
        let to = o.threads[k - 1];
        lemma_proposed_raises(before, o.file, to, o.threads);
        lemma_only_raises_chain(m, before, m.raised(o, k));
        assert forall|j: int| 0 <= j < k implies m.raised(o, k).settled(
            o.file,
            #[trigger] o.threads[j],
        ) by {
            if j < k - 1 {
                lemma_settled_stays(before, m.raised(o, k), o.file, o.threads[j]);
            }
        }
    }
}

pub proof fn lemma_all_raised(m: ShellModel, found: Seq<ObservationModel>, g: int)
    requires
        0 <= g <= found.len(),
        forall|h: int|
            0 <= h < found.len() ==> lists_threads(#[trigger] found[h], m.threads.len()),
    ensures
        only_raises(m, m.all_raised(found, g)),
        forall|h: int, j: int|
            0 <= h < g && 0 <= j < found[h].threads.len() ==> m.all_raised(found, g).settled(
                found[h].file,
                #[trigger] found[h].threads[j],
            ),
    decreases g,
{
    if g > 0 {
        lemma_all_raised(m, found, g - 1);
        let before = m.all_raised(found, g - 1);
        let o = found[g - 1];
        assert(lists_threads(o, before.threads.len()));
        lemma_raised(before, o, o.threads.len() as int);
        let after = m.all_raised(found, g);
        lemma_only_raises_chain(m, before, after);
        assert forall|h: int, j: int| 0 <= h < g && 0 <= j < found[h].threads.len() implies after
            .settled(found[h].file, #[trigger] found[h].threads[j]) by {
            if h < g - 1 {
                assert(lists_threads(found[h], m.threads.len()));
                lemma_settled_stays(before, after, found[h].file, found[h].threads[j]);
            }
        }
    }
}

/// Where everything is settled, raising raises nothing.
proof fn lemma_nothing_to_raise(m: ShellModel, found: Seq<ObservationModel>, g: int)
    requires
        0 <= g <= found.len(),
        forall|h: int, j: int|
            0 <= h < found.len() && 0 <= j < found[h].threads.len() ==> m.settled(
                found[h].file,
                #[trigger] found[h].threads[j],
            ),
    ensures
        m.all_raised(found, g) == m,
    decreases g,
{
    if g > 0 {
        lemma_nothing_to_raise(m, found, g - 1);
        lemma_nothing_in_one(m, found[g - 1], found[g - 1].threads.len() as int);
    }
}

proof fn lemma_nothing_in_one(m: ShellModel, o: ObservationModel, k: int)
    requires
        0 <= k <= o.threads.len(),
        forall|j: int| 0 <= j < o.threads.len() ==> m.settled(o.file, #[trigger] o.threads[j]),
    ensures
        m.raised(o, k) == m,
    decreases k,
{
    if k > 0 {
        lemma_nothing_in_one(m, o, k - 1);
        assert(m.settled(o.file, o.threads[k - 1]));
    }
}

/// What is observed depends on what the threads changed and whether their
/// agents work, and on nothing that is said in them.
pub proof fn lemma_same_observed(a: Seq<ThreadUiModel>, b: Seq<ThreadUiModel>, k: int)
    requires
        a.len() == b.len(),
        0 <= k <= a.len(),
        forall|i: int|
            0 <= i < a.len() ==> (#[trigger] b[i]).seed == a[i].seed && b[i].agent_busy
                == a[i].agent_busy,
    ensures
        signals::grouped(a, k) == signals::grouped(b, k),
    decreases k,
{
    if k > 0 {
        lemma_same_observed(a, b, k - 1);
        assert(b[k - 1].seed == a[k - 1].seed);
    }
}

pub proof fn lemma_observed_listed(m: ShellModel)
    requires
        m.threads.len() <= u32::MAX,
    ensures
        forall|h: int|
            0 <= h < signals::observed(m.threads).len() ==> lists_threads(
                #[trigger] signals::observed(m.threads)[h],
                m.threads.len(),
            ),
{
    let found = signals::observed(m.threads);
    assert forall|h: int| 0 <= h < found.len() implies lists_threads(
        #[trigger] found[h],
        m.threads.len(),
    ) by {
        assert forall|j: int| 0 <= j < found[h].threads.len() implies #[trigger] found[h].threads[j]
            < m.threads.len() by {
            signals::lemma_observed_exist(m.threads, h, j);
        }
    }
}

/// A sweep only raises findings, and every one of them is held: it changes no
/// comment, starts no agent, and tells no agent anything. While the workspace
/// is not noticing things it does nothing at all.
pub proof fn a_sweep_only_raises_held_findings(m: ShellModel)
    requires
        m.threads.len() <= u32::MAX,
    ensures
        m.proactive == Proactive::Off ==> m.swept() == (m, Seq::<ReleaseModel>::empty()),
        only_raises(
            m,
            ShellModel { auto_scheduled: m.auto_scheduled, ..m.swept().0 },
        ),
{
    reveal(ShellModel::swept);
    if m.proactive != Proactive::Off {
        let found = signals::observed(m.threads);
        lemma_observed_listed(m);
        lemma_all_raised(m, found, found.len() as int);
    }
}

/// After a sweep, every thread involved in something the workspace noticed has
/// been told, or had turned it down: findings are raised into each thread, not
/// left on a dashboard.
pub proof fn every_thread_involved_is_told(m: ShellModel, g: int, j: int)
    requires
        m.threads.len() <= u32::MAX,
        m.proactive != Proactive::Off,
        0 <= g < signals::observed(m.threads).len(),
        0 <= j < signals::observed(m.threads)[g].threads.len(),
    ensures
        m.swept().0.settled(
            signals::observed(m.threads)[g].file,
            signals::observed(m.threads)[g].threads[j],
        ),
{
    reveal(ShellModel::swept);
    let found = signals::observed(m.threads);
    lemma_observed_listed(m);
    lemma_all_raised(m, found, found.len() as int);
    let raised = m.all_raised(found, found.len() as int);
    assert(raised.settled(found[g].file, found[g].threads[j]));
}

proof fn lemma_raised_keeps_out(m: ShellModel, o: ObservationModel, k: int, file: Seq<char>, to: usize)
    requires
        0 <= k <= o.threads.len(),
        lists_threads(o, m.threads.len()),
        to < m.threads.len(),
        m.dismissed.contains((to, file)),
        !state::has_finding(m.threads[to as int].comments, file),
    ensures
        !state::has_finding(m.raised(o, k).threads[to as int].comments, file),
        m.raised(o, k).dismissed == m.dismissed,
        m.raised(o, k).threads.len() == m.threads.len(),
    decreases k,
{
    if k > 0 {
        lemma_raised_keeps_out(m, o, k - 1, file, to);
        let before = m.raised(o, k - 1);
        let at = o.threads[k - 1];
        let after = m.raised(o, k);
        if !before.settled(o.file, at) {
            let was = before.threads[to as int].comments;
            let now = after.threads[to as int].comments;
            if state::has_finding(now, file) {
                let j = choose|j: int| 0 <= j < now.len() && (#[trigger] now[j]).is_about(file);
                if at == to {
                    if j < was.len() {
                        assert(now[j] == was[j]);
                    } else {
                        assert(now[j].about == Some(o.file));
                    }
                } else {
                    assert(now[j] == was[j]);
                }
            }
        }
    }
}

proof fn lemma_all_raised_keeps_out(
    m: ShellModel,
    found: Seq<ObservationModel>,
    g: int,
    file: Seq<char>,
    to: usize,
)
    requires
        0 <= g <= found.len(),
        forall|h: int|
            0 <= h < found.len() ==> lists_threads(#[trigger] found[h], m.threads.len()),
        to < m.threads.len(),
        m.dismissed.contains((to, file)),
        !state::has_finding(m.threads[to as int].comments, file),
    ensures
        !state::has_finding(m.all_raised(found, g).threads[to as int].comments, file),
        m.all_raised(found, g).dismissed == m.dismissed,
        m.all_raised(found, g).threads.len() == m.threads.len(),
    decreases g,
{
    if g > 0 {
        lemma_all_raised_keeps_out(m, found, g - 1, file, to);
        let before = m.all_raised(found, g - 1);
        assert(lists_threads(found[g - 1], before.threads.len()));
        lemma_raised_keeps_out(
            before,
            found[g - 1],
            found[g - 1].threads.len() as int,
            file,
            to,
        );
    }
}

/// A finding that was turned down stays down: whatever its sentence would say
/// by now, no sweep raises it in that thread again.
pub proof fn a_finding_turned_down_stays_down(m: ShellModel, file: Seq<char>, to: usize)
    requires
        m.threads.len() <= u32::MAX,
        to < m.threads.len(),
        m.dismissed.contains((to, file)),
        !state::has_finding(m.threads[to as int].comments, file),
    ensures
        !state::has_finding(m.swept().0.threads[to as int].comments, file),
        m.swept().0.dismissed.contains((to, file)),
{
    reveal(ShellModel::swept);
    if m.proactive != Proactive::Off {
        let found = signals::observed(m.threads);
        lemma_observed_listed(m);
        lemma_all_raised_keeps_out(m, found, found.len() as int, file, to);
    }
}

/// Turning a finding down takes it out of the thread and remembers it, so the
/// two together mean it is gone for good.
pub proof fn turning_a_finding_down_is_final(m: ShellModel, id: u32, k: int, file: Seq<char>)
    requires
        m.well_formed(),
        m.current().comment_at(id) == Some(k),
        m.current().comments[k].is_about(file),
    ensures
        m.answered(id, false).dismissed.contains((m.active, file)),
        !state::has_finding(m.answered(id, false).threads[m.active as int].comments, file),
        !state::has_finding(
            m.answered(id, false).swept().0.threads[m.active as int].comments,
            file,
        ),
{
    let p = |c: UiCommentModel| c.id == id;
    lists::lemma_position(m.current().comments, p);
    let after = m.answered(id, false);
    let was = m.current().comments;
    let now = after.threads[m.active as int].comments;
    assert(now == was.remove(k));
    assert(after.dismissed[m.dismissed.len() as int] == (m.active, file));
    assert(state::single_findings(m.threads[m.active as int].comments));
    if state::has_finding(now, file) {
        let j = choose|j: int| 0 <= j < now.len() && (#[trigger] now[j]).is_about(file);
        let was_at = if j < k {
            j
        } else {
            j + 1
        };
        assert(now[j] == was[was_at]);
        if was_at < k {
            assert(was[was_at].about != was[k].about);
        } else {
            assert(was[k].about != was[was_at].about);
        }
    }
    a_finding_turned_down_stays_down(after, file, m.active);
}

// --------------------------------------------------------------- schedules --

/// Everything worth a release has one.
pub open spec fn covered(s: Schedule, threads: Seq<ThreadUiModel>, o: ObservationModel, k: int) -> bool {
    forall|j: int|
        0 <= j < k && signals::worth_interrupting(threads, #[trigger] o.threads[j], o.threads)
            ==> s.seen.contains((o.threads[j], o.file))
}

proof fn lemma_seen_grows(s: Schedule, threads: Seq<ThreadUiModel>, o: ObservationModel, k: int)
    requires
        0 <= k <= o.threads.len(),
    ensures
        covered(s.with_observation(threads, o, k), threads, o, k),
        forall|e: (usize, Seq<char>)|
            s.seen.contains(e) ==> #[trigger] s.with_observation(threads, o, k).seen.contains(e),
    decreases k,
{
    if k > 0 {
        lemma_seen_grows(s, threads, o, k - 1);
        let before = s.with_observation(threads, o, k - 1);
        let after = s.with_observation(threads, o, k);
        assert forall|e: (usize, Seq<char>)| before.seen.contains(e) implies #[trigger] after.seen
            .contains(e) by {
            let j = choose|j: int| 0 <= j < before.seen.len() && before.seen[j] == e;
            assert(after.seen[j] == e);
        }
        assert forall|j: int|
            0 <= j < k && signals::worth_interrupting(
                threads,
                #[trigger] o.threads[j],
                o.threads,
            ) implies after.seen.contains((o.threads[j], o.file)) by {
            if j < k - 1 {
                assert(before.seen.contains((o.threads[j], o.file)));
            } else if !before.seen.contains((o.threads[j], o.file)) {
                assert(after.seen[before.seen.len() as int] == (o.threads[j], o.file));
            }
        }
    }
}

pub proof fn lemma_plan_covers(
    s: Schedule,
    threads: Seq<ThreadUiModel>,
    found: Seq<ObservationModel>,
    g: int,
)
    requires
        0 <= g <= found.len(),
    ensures
        forall|h: int|
            0 <= h < g ==> covered(
                s.planned(threads, found, g),
                threads,
                #[trigger] found[h],
                found[h].threads.len() as int,
            ),
        forall|e: (usize, Seq<char>)|
            s.seen.contains(e) ==> #[trigger] s.planned(threads, found, g).seen.contains(e),
    decreases g,
{
    if g > 0 {
        lemma_plan_covers(s, threads, found, g - 1);
        let before = s.planned(threads, found, g - 1);
        let o = found[g - 1];
        lemma_seen_grows(before, threads, o, o.threads.len() as int);
        let after = s.planned(threads, found, g);
        assert forall|h: int| 0 <= h < g implies covered(
            after,
            threads,
            #[trigger] found[h],
            found[h].threads.len() as int,
        ) by {
            if h < g - 1 {
                assert forall|j: int|
                    0 <= j < found[h].threads.len() && signals::worth_interrupting(
                        threads,
                        #[trigger] found[h].threads[j],
                        found[h].threads,
                    ) implies after.seen.contains((found[h].threads[j], found[h].file)) by {
                    assert(before.seen.contains((found[h].threads[j], found[h].file)));
                }
            }
        }
    }
}

proof fn lemma_nothing_in_one_due(
    s: Schedule,
    threads: Seq<ThreadUiModel>,
    o: ObservationModel,
    k: int,
)
    requires
        0 <= k <= o.threads.len(),
        covered(s, threads, o, o.threads.len() as int),
    ensures
        s.with_observation(threads, o, k) == s,
    decreases k,
{
    if k > 0 {
        lemma_nothing_in_one_due(s, threads, o, k - 1);
        let to = o.threads[k - 1];
        if signals::worth_interrupting(threads, to, o.threads) {
            assert(s.seen.contains((to, o.file)));
        }
    }
}

proof fn lemma_nothing_due(
    s: Schedule,
    threads: Seq<ThreadUiModel>,
    found: Seq<ObservationModel>,
    g: int,
)
    requires
        0 <= g <= found.len(),
        forall|h: int|
            0 <= h < found.len() ==> covered(
                s,
                threads,
                #[trigger] found[h],
                found[h].threads.len() as int,
            ),
    ensures
        s.planned(threads, found, g) == s,
    decreases g,
{
    if g > 0 {
        lemma_nothing_due(s, threads, found, g - 1);
        lemma_nothing_in_one_due(s, threads, found[g - 1], found[g - 1].threads.len() as int);
    }
}

/// What a release is: for a thread an observation lists, whose lines another
/// thread in the file overlaps, and in its place in the queue.
pub open spec fn is_due(
    r: ReleaseModel,
    i: int,
    threads: Seq<ThreadUiModel>,
    found: Seq<ObservationModel>,
) -> bool {
    &&& r.millis == 2000 + 8000 * i
    &&& exists|h: int|
        #![trigger found[h]]
        0 <= h < found.len() && found[h].file == r.file && found[h].threads.contains(r.thread)
            && signals::worth_interrupting(threads, r.thread, found[h].threads)
}

/// Every release on the plan is due, and none was scheduled before.
spec fn plan_holds(
    s: Schedule,
    was: Seq<(usize, Seq<char>)>,
    threads: Seq<ThreadUiModel>,
    found: Seq<ObservationModel>,
) -> bool {
    &&& forall|e: (usize, Seq<char>)| was.contains(e) ==> #[trigger] s.seen.contains(e)
    &&& forall|i: int|
        0 <= i < s.due.len() ==> {
            &&& is_due(#[trigger] s.due[i], i, threads, found)
            &&& !was.contains((s.due[i].thread, s.due[i].file))
        }
}

proof fn lemma_plan_one(
    s: Schedule,
    was: Seq<(usize, Seq<char>)>,
    threads: Seq<ThreadUiModel>,
    found: Seq<ObservationModel>,
    h: int,
    k: int,
)
    requires
        0 <= h < found.len(),
        0 <= k <= found[h].threads.len(),
        s.due.len() + found[h].threads.len() <= u32::MAX,
        plan_holds(s, was, threads, found),
    ensures
        plan_holds(s.with_observation(threads, found[h], k), was, threads, found),
        s.with_observation(threads, found[h], k).due.len() <= s.due.len() + k,
    decreases k,
{
    if k > 0 {
        lemma_plan_one(s, was, threads, found, h, k - 1);
        let before = s.with_observation(threads, found[h], k - 1);
        let after = s.with_observation(threads, found[h], k);
        let to = found[h].threads[k - 1];
        assert(found[h].threads.contains(to));
        assert forall|e: (usize, Seq<char>)| was.contains(e) implies #[trigger] after.seen.contains(
            e,
        ) by {
            assert(before.seen.contains(e));
            let j = choose|j: int| 0 <= j < before.seen.len() && before.seen[j] == e;
            assert(after.seen[j] == e);
        }
        assert forall|i: int| 0 <= i < after.due.len() implies {
            &&& is_due(#[trigger] after.due[i], i, threads, found)
            &&& !was.contains((after.due[i].thread, after.due[i].file))
        } by {
            if i < before.due.len() {
                assert(after.due[i] == before.due[i]);
                assert(is_due(before.due[i], i, threads, found));
            } else {
                let r = after.due[i];
                assert(r.thread == to && r.file == found[h].file);
                assert(is_due(r, i, threads, found));
            }
        }
    }
}

proof fn lemma_plan(
    was: Seq<(usize, Seq<char>)>,
    threads: Seq<ThreadUiModel>,
    found: Seq<ObservationModel>,
    g: int,
)
    requires
        0 <= g <= found.len(),
        signals::listed(found.take(g)) <= u32::MAX,
    ensures
        ({
            let s = (Schedule { seen: was, due: Seq::empty() }).planned(threads, found, g);
            &&& plan_holds(s, was, threads, found)
            &&& s.due.len() <= signals::listed(found.take(g))
        }),
    decreases g,
{
    if g > 0 {
        assert(found.take(g).drop_last() =~= found.take(g - 1));
        lemma_plan(was, threads, found, g - 1);
        let before = (Schedule { seen: was, due: Seq::empty() }).planned(threads, found, g - 1);
        lemma_plan_one(before, was, threads, found, g - 1, found[g - 1].threads.len() as int);
    }
}

/// Only auto mode lets anything through, and only where another thread is dirty
/// in overlapping lines of the same file: merely sharing a file waits. Releases
/// are staggered, two seconds from now and then eight seconds apart, and none is
/// scheduled twice.
pub proof fn auto_releases_only_what_overlaps(m: ShellModel, i: int)
    requires
        m.threads.len() <= u32::MAX,
        0 <= i < m.swept().1.len(),
    ensures
        m.proactive == Proactive::Auto,
        is_due(m.swept().1[i], i, m.threads, signals::observed(m.threads)),
        !m.auto_scheduled.contains((m.swept().1[i].thread, m.swept().1[i].file)),
{
    reveal(ShellModel::swept);
    let found = signals::observed(m.threads);
    lemma_observed_listed(m);
    lemma_all_raised(m, found, found.len() as int);
    let raised = m.all_raised(found, found.len() as int);
    assert forall|j: int| 0 <= j < m.threads.len() implies (#[trigger] raised.threads[j]).seed
        == m.threads[j].seed && raised.threads[j].agent_busy == m.threads[j].agent_busy by {}
    lemma_same_observed(m.threads, raised.threads, m.threads.len() as int);
    let again = signals::observed(raised.threads);
    assert(again == found);
    signals::observations_are_the_shared_files(m.threads);
    assert(found.take(found.len() as int) =~= found);
    lemma_plan(raised.auto_scheduled, raised.threads, found, found.len() as int);
    let r = m.swept().1[i];
    assert(is_due(r, i, raised.threads, found));
    let h = choose|h: int|
        #![trigger found[h]]
        0 <= h < found.len() && found[h].file == r.file && found[h].threads.contains(r.thread)
            && signals::worth_interrupting(raised.threads, r.thread, found[h].threads);
    let others = found[h].threads;
    assert(lists_threads(found[h], m.threads.len()));
    let at = choose|j: int| 0 <= j < others.len() && others[j] == r.thread;
    let k = choose|k: int|
        #![trigger others[k]]
        0 <= k < others.len() && others[k] != r.thread && signals::lines_collide(
            raised.threads[r.thread as int],
            raised.threads[others[k] as int],
        );
    assert(others[at] < m.threads.len());
    assert(raised.threads[r.thread as int].seed == m.threads[r.thread as int].seed);
    assert(raised.threads[others[k] as int].seed == m.threads[others[k] as int].seed);
    assert(signals::worth_interrupting(m.threads, r.thread, others));
}

/// Letting a finding through tells one agent one thing: a comment that was held
/// is armed, and nothing else changes anywhere. Outside auto mode nothing does.
pub proof fn a_release_arms_one_held_finding(m: ShellModel, to: usize, file: Seq<char>, j: int, k: int)
    requires
        0 <= j < m.threads.len(),
        0 <= k < m.threads[j].comments.len(),
    ensures
        m.proactive != Proactive::Auto ==> m.released(to, file) == m,
        m.released(to, file).threads[j].comments.len() == m.threads[j].comments.len(),
        m.released(to, file).threads[j].agent_busy == m.threads[j].agent_busy,
        m.released(to, file).threads[j].comments[k] == m.threads[j].comments[k] || {
            &&& j == to
            &&& m.threads[j].comments[k].is_about(file)
            &&& m.threads[j].comments[k].delivery == Delivery::Proposed
            &&& m.released(to, file).threads[j].comments[k] == (UiCommentModel {
                delivery: Delivery::Pending,
                ..m.threads[j].comments[k]
            })
        },
{
    if to < m.threads.len() {
        lists::lemma_position(
            m.threads[to as int].comments,
            |c: UiCommentModel| c.is_about(file) && c.delivery == Delivery::Proposed,
        );
    }
}

/// Sweeping again, with nothing changed in between, raises nothing and schedules
/// nothing: repeated sweeps do not repeat themselves and do not stack timers.
pub proof fn sweeping_again_changes_nothing(m: ShellModel)
    requires
        m.threads.len() <= u32::MAX,
    ensures
        m.swept().0.swept() == (m.swept().0, Seq::<ReleaseModel>::empty()),
{
    reveal(ShellModel::swept);
    if m.proactive != Proactive::Off {
        let found = signals::observed(m.threads);
        lemma_observed_listed(m);
        lemma_all_raised(m, found, found.len() as int);
        let raised = m.all_raised(found, found.len() as int);
        let once = m.swept().0;
        assert(once.threads == raised.threads);
        lemma_same_observed(m.threads, once.threads, m.threads.len() as int);
        assert(signals::observed(once.threads) == found);
        assert forall|h: int, j: int|
            0 <= h < found.len() && 0 <= j < found[h].threads.len() implies once.settled(
            found[h].file,
            #[trigger] found[h].threads[j],
        ) by {
            assert(raised.settled(found[h].file, found[h].threads[j]));
        }
        lemma_nothing_to_raise(once, found, found.len() as int);
        if m.proactive == Proactive::Auto {
            let start = Schedule { seen: raised.auto_scheduled, due: Seq::empty() };
            let plan = start.planned(raised.threads, found, found.len() as int);
            lemma_plan_covers(start, raised.threads, found, found.len() as int);
            let again = Schedule { seen: plan.seen, due: Seq::empty() };
            assert forall|h: int| 0 <= h < found.len() implies covered(
                again,
                raised.threads,
                #[trigger] found[h],
                found[h].threads.len() as int,
            ) by {
                assert(covered(plan, raised.threads, found[h], found[h].threads.len() as int));
            }
            lemma_nothing_due(again, raised.threads, found, found.len() as int);
        }
    }
}

// --------------------------------------------------------------- forwarding --

/// A comment handed on stays what it was, however often: its anchor, its words,
/// its author and whom it mentions arrive verbatim, and its provenance names the
/// author it had. Only where it lands is decided by the recipient.
pub proof fn a_forwarded_comment_stays_what_it_was(
    m: ShellModel,
    c: UiCommentModel,
    to: usize,
)
    requires
        m.well_formed(),
        c.portable(),
        to < m.threads.len(),
        to != m.active,
    ensures
        ({
            let e = m.envelope(to, c.author, c.anchor, c.body, c.mentions);
            let landed = m.unpacked(e);
            &&& m.refusal(e) is None
            &&& landed.anchor == c.anchor
            &&& landed.body == c.body
            &&& landed.author == c.author
            &&& landed.mentions == c.mentions
            &&& landed.origin matches ProvenanceModel::Forwarded {
                from_title,
                forwarded_by,
                original_author,
            } && original_author == c.author && forwarded_by == seed::ME && from_title
                == m.current().seed.title
            &&& landed.resolved == m.threads[to as int].resolved_in(c.anchor)
            &&& landed.portable()
        }),
{
    let e = m.envelope(to, c.author, c.anchor, c.body, c.mentions);
    assert(forwarding::named(forwarding::ids(c.mentions)) =~= c.mentions) by {
        assert forall|i: int| 0 <= i < c.mentions.len() implies forwarding::named(
            forwarding::ids(c.mentions),
        )[i] == c.mentions[i] by {
            assert(c.mentions[i] <= u32::MAX);
        }
    }
}

/// Nothing is spliced into a prompt that is already in flight: what is sent to a
/// thread whose agent is mid-turn waits there, and changes nothing that was
/// there before.
pub proof fn what_arrives_mid_turn_waits(m: ShellModel, e: EnvelopeModel)
    requires
        m.takes(e),
        m.refusal(e) is None,
        m.threads[e.to.0 as int].agent_busy,
    ensures
        ({
            let before = m.threads[e.to.0 as int];
            let after = m.delivered(e).threads[e.to.0 as int];
            &&& after.comments == before.comments.push(m.unpacked(e))
            &&& after.comments.last().delivery == Delivery::Queued
            &&& after.agent_busy
            &&& after.turn == before.turn
        }),
{
}

/// An agent's forward arrives waiting, however idle the recipient is, and is
/// never let back to the thread it came from: not to the one the envelope names
/// as its own, and not to the one a comment was handed on from (A -> B -> A).
pub proof fn an_agents_forward_waits_and_never_goes_home(m: ShellModel, e: EnvelopeModel)
    requires
        m.takes(e),
        e.to != e.from,
        e.to.0 < m.threads.len(),
        seed::everyone()[e.sender.0 as int].agent,
    ensures
        m.refusal(e) is None ==> m.unpacked(e).delivery == Delivery::Queued,
        e.from_title == m.threads[e.to.0 as int].seed.title ==> m.refusal(e) == Some(
            SendError::WouldLoop,
        ),
        m.goes_home(e) ==> m.refusal(e) == Some(SendError::WouldLoop),
{
}

/// What was handed on from A to B, no agent hands back from B to A: once an
/// envelope has landed, the same words on the same anchor by the same author are
/// refused on the way back.
pub proof fn no_agent_closes_the_loop(m: ShellModel, e: EnvelopeModel, back: EnvelopeModel)
    requires
        m.takes(e),
        m.refusal(e) is None,
        back.from == e.to,
        back.to == e.from,
        back.anchor == e.anchor,
        back.body == e.body,
        back.author == e.author,
        back.sender.0 < seed::everyone().len(),
        seed::everyone()[back.sender.0 as int].agent,
    ensures
        m.delivered(e).refusal(back) == Some(SendError::WouldLoop),
{
    let after = m.delivered(e);
    let k = m.threads[e.to.0 as int].comments.len() as int;
    assert(after.threads[e.to.0 as int].comments[k] == m.unpacked(e));
    assert(forwarding::came_from(
        after.threads[back.from.0 as int].comments[k],
        back,
        after.threads[back.to.0 as int].seed.title,
    ));
}

/// What an agent handed on waits until a person lets it through: no turn end, no
/// sweep, no change of mode, no release, no batch, no note and no other arrival
/// arms it. Answering it does; and withholding takes it out of the queue, from
/// where somebody can put it back.
pub proof fn only_a_person_releases_what_an_agent_sent(
    m: ShellModel,
    j: int,
    k: int,
    i: usize,
    replies: Seq<AgentReplyModel>,
    mode: Proactive,
    file: Seq<char>,
    e: EnvelopeModel,
)
    requires
        m.well_formed(),
        0 <= j < m.threads.len(),
        0 <= k < m.threads[j].comments.len(),
        m.threads[j].comments[k].delivery == Delivery::Queued,
        turns::sent_by_agent(m.threads[j].comments[k]),
        !m.put_back.contains(m.threads[j].comments[k].id),
    ensures
        m.turn_ended(i, replies).0.threads[j].comments[k] == m.threads[j].comments[k],
        m.swept().0.threads[j].comments[k] == m.threads[j].comments[k],
        m.in_mode(mode).0.threads[j].comments[k] == m.threads[j].comments[k],
        m.released(i, file).threads[j].comments[k] == m.threads[j].comments[k],
        m.batch_sent().0.threads[j].comments[k] == m.threads[j].comments[k],
        m.committed().0.threads[j].comments[k].delivery == Delivery::Queued,
        m.takes(e) && m.refusal(e) is None ==> m.delivered(e).threads[j].comments[k]
            == m.threads[j].comments[k],
        j == m.active && m.current().comment_at(m.threads[j].comments[k].id) == Some(k) ==> {
            let id = m.threads[j].comments[k].id;
            &&& m.answered(id, true).threads[j].comments[k].delivery == Delivery::Pending
            &&& m.toggled(id).threads[j].comments[k].delivery == Delivery::Withheld
        },
{
    let c = m.threads[j].comments[k];
    lemma_sweep_keeps(m, j, k);
    if i < m.threads.len() {
        let ended = m.with_thread(
            i as int,
            m.threads[i as int].turn_ended(replies, i == m.active, m.put_back),
        );
        assert(ended.threads[j].comments[k] == c);
        lemma_sweep_keeps(ended, j, k);
    }
    let set = ShellModel {
        proactive: mode,
        auto_scheduled: if mode == Proactive::Auto {
            m.auto_scheduled
        } else {
            Seq::empty()
        },
        ..m
    };
    lemma_sweep_keeps(set, j, k);
    a_release_arms_one_held_finding(m, i, file, j, k);
    reveal(ShellModel::committed);
    if let Some(Target::Reply(parent)) = m.target {
        lists::lemma_position(m.current().comments, |c: UiCommentModel| c.id == parent);
    }
}

proof fn lemma_sweep_keeps(m: ShellModel, j: int, k: int)
    requires
        m.threads.len() <= u32::MAX,
        0 <= j < m.threads.len(),
        0 <= k < m.threads[j].comments.len(),
    ensures
        m.swept().0.threads[j].comments[k] == m.threads[j].comments[k],
{
    a_sweep_only_raises_held_findings(m);
    let after = ShellModel { auto_scheduled: m.auto_scheduled, ..m.swept().0 };
    assert(after.threads[j].comments.len() >= m.threads[j].comments.len());
    assert(after.threads[j].comments[k] == m.threads[j].comments[k]);
}

/// What has just landed nobody has put back: an agent's forward starts out
/// waiting for a person.
pub proof fn what_lands_is_not_put_back_yet(m: ShellModel, e: EnvelopeModel)
    requires
        m.well_formed(),
        m.takes(e),
        m.refusal(e) is None,
    ensures
        !m.delivered(e).put_back.contains(m.unpacked(e).id),
{
    if m.put_back.contains(m.unpacked(e).id) {
        let k = choose|k: int| 0 <= k < m.put_back.len() && m.put_back[k] == m.unpacked(e).id;
        assert(m.put_back[k] <= m.next_id);
    }
}

/// The sender keeps a record of every send, and what it says became of it is
/// what the recipient's thread holds.
pub proof fn a_send_leaves_a_record(m: ShellModel, e: EnvelopeModel)
    requires
        m.well_formed(),
        m.takes(e),
        m.refusal(e) is None,
    ensures
        ({
            let after = m.delivered(e);
            let record = after.threads[e.from.0 as int].sent.last();
            &&& record.to == e.to.0
            &&& after.threads[record.to as int].comment_at(record.comment) == Some(
                m.threads[e.to.0 as int].comments.len() as int,
            )
            &&& after.fate(record) == (if m.unpacked(e).delivery == Delivery::Queued {
                ReceiptStatus::NotToldYet
            } else {
                ReceiptStatus::HasIt
            })
        }),
{
    let after = m.delivered(e);
    let to = e.to.0 as int;
    let comments = after.threads[to].comments;
    let id = m.unpacked(e).id;
    let p = |c: UiCommentModel| c.id == id;
    let last = m.threads[to].comments.len() as int;
    assert(comments[last].id == id);
    assert(state::sound(m.threads[to].comments, m.next_id));
    assert forall|k: int| 0 <= k < last implies !p(#[trigger] comments[k]) by {
        assert(comments[k] == m.threads[to].comments[k]);
    }
    lists::lemma_is_position(comments, p, last);
}

/// Committing while the agent is mid-turn starts no turn: the note waits with
/// what was there, untouched.
pub proof fn a_note_committed_mid_turn_waits(m: ShellModel)
    requires
        m.active < m.threads.len(),
        m.current().agent_busy,
    ensures
        m.committed().1 is None,
        m.committed().0.current().turn == m.current().turn,
        m.committed().0.current().agent_busy,
        m.committed().0.current().comments.len() >= m.current().comments.len(),
        forall|k: int|
            0 <= k < m.current().comments.len() ==> (
            #[trigger] m.committed().0.current().comments[k]).delivery
                == m.current().comments[k].delivery,
{
    reveal(ShellModel::committed);
    if let Some(Target::Reply(parent)) = m.target {
        lists::lemma_position(m.current().comments, |c: UiCommentModel| c.id == parent);
    }
}

// ------------------------------------------------------------------ turns --

/// Whether an agent handed the comment on.
pub open spec fn handed_on_by_an_agent(c: UiCommentModel) -> bool {
    match c.origin {
        ProvenanceModel::Forwarded { forwarded_by, .. } => forwarded_by < seed::everyone().len()
            && seed::everyone()[forwarded_by as int].agent,
        ProvenanceModel::Local => false,
    }
}

/// When a turn ends, the replies that landed before it stay as they were and in
/// their order, and those it brought follow them, in theirs. The agent is free.
/// Every comment stays what it was, but that one that waited for this boundary is
/// now pending. The thread is unread if the replies came while nobody looked.
/// Nothing that was said in another thread changes.
pub proof fn a_turn_ends_with_its_replies_behind_the_earlier_ones(
    m: ShellModel,
    i: usize,
    replies: Seq<AgentReplyModel>,
    j: int,
    k: int,
)
    requires
        m.threads.len() <= u32::MAX,
        i < m.threads.len(),
        0 <= j < m.threads.len(),
    ensures
        ({
            let was = m.threads[j];
            let now = m.turn_ended(i, replies).0.threads[j];
            &&& m.turn_ended(i, replies).0.threads.len() == m.threads.len()
            &&& j == i ==> now.replies.len() == was.replies.len() + replies.len()
            &&& 0 <= k < was.replies.len() ==> now.replies[k] == was.replies[k]
            &&& j == i && 0 <= k < replies.len() ==> now.replies[was.replies.len() + k]
                == replies[k]
            &&& j != i ==> now.replies == was.replies
            &&& j == i ==> !now.agent_busy
            &&& j != i ==> now.agent_busy == was.agent_busy
            &&& now.turn == was.turn
            &&& now.sent == was.sent
            &&& now.seed == was.seed
            &&& was.comments.len() <= now.comments.len()
            &&& 0 <= k < was.comments.len() ==> {
                let c = was.comments[k];
                if j == i && c.delivery == Delivery::Queued && (!handed_on_by_an_agent(c)
                    || m.put_back.contains(c.id)) {
                    now.comments[k] == UiCommentModel { delivery: Delivery::Pending, ..c }
                } else {
                    now.comments[k] == c
                }
            }
            &&& was.comments.len() <= k < now.comments.len() ==> now.comments[k].delivery
                == Delivery::Proposed && now.comments[k].about is Some
            &&& now.unread == (was.unread || (j == i && i != m.active && replies.len() > 0)
                || was.comments.len() < now.comments.len())
        }),
{
    let ended = m.with_thread(
        i as int,
        m.threads[i as int].turn_ended(replies, i == m.active, m.put_back),
    );
    a_sweep_only_raises_held_findings(ended);
    let after = m.turn_ended(i, replies).0;
    assert(after.threads[j].seed == ended.threads[j].seed);
    if 0 <= k < after.threads[j].comments.len() {
        assert(after.threads[j].comments[k].id == after.threads[j].comments[k].id);
    }
}

/// The end of a turn leaves what the person sees and types as it was, and a turn
/// of a thread that is not there ends without a trace.
pub proof fn a_turn_ends_in_its_thread(m: ShellModel, i: usize, replies: Seq<AgentReplyModel>)
    requires
        m.threads.len() <= u32::MAX,
    ensures
        ({
            let after = m.turn_ended(i, replies).0;
            &&& i >= m.threads.len() ==> m.turn_ended(i, replies) == (m, Seq::<ReleaseModel>::empty())
            &&& after.active == m.active
            &&& after.target == m.target
            &&& after.composer == m.composer
            &&& after.mention_sel == m.mention_sel
            &&& after.picker_dismissed == m.picker_dismissed
            &&& after.forwarding == m.forwarding
            &&& after.view == m.view
            &&& after.dismissed == m.dismissed
            &&& after.put_back == m.put_back
            &&& after.demo == m.demo
            &&& after.proactive == m.proactive
        }),
{
    if i < m.threads.len() {
        let ended = m.with_thread(
            i as int,
            m.threads[i as int].turn_ended(replies, i == m.active, m.put_back),
        );
        a_sweep_only_raises_held_findings(ended);
    }
}

pub proof fn lemma_one_planned(s: Schedule, threads: Seq<ThreadUiModel>, o: ObservationModel, k: int)
    requires
        0 <= k <= o.threads.len(),
    ensures
        ({
            let t = s.with_observation(threads, o, k);
            &&& s.due.len() <= t.due.len()
            &&& t.seen.len() - s.seen.len() == t.due.len() - s.due.len()
            &&& t.due.take(s.due.len() as int) == s.due
            &&& t.seen == s.seen + Seq::new(
                (t.due.len() - s.due.len()) as nat,
                |i: int| (t.due[s.due.len() + i].thread, t.due[s.due.len() + i].file),
            )
        }),
    decreases k,
{
    let t = s.with_observation(threads, o, k);
    if k > 0 {
        lemma_one_planned(s, threads, o, k - 1);
        let b = s.with_observation(threads, o, k - 1);
        if t.due.len() > b.due.len() {
            assert(t.due.take(s.due.len() as int) =~= b.due.take(s.due.len() as int));
            assert(t.seen =~= s.seen + Seq::new(
                (t.due.len() - s.due.len()) as nat,
                |i: int| (t.due[s.due.len() + i].thread, t.due[s.due.len() + i].file),
            ));
        }
    } else {
        assert(t.due.take(s.due.len() as int) =~= s.due);
        assert(t.seen =~= s.seen + Seq::new(
            0,
            |i: int| (t.due[s.due.len() + i].thread, t.due[s.due.len() + i].file),
        ));
    }
}

proof fn lemma_all_planned(
    s: Schedule,
    threads: Seq<ThreadUiModel>,
    found: Seq<ObservationModel>,
    g: int,
)
    requires
        0 <= g <= found.len(),
    ensures
        ({
            let t = s.planned(threads, found, g);
            &&& s.due.len() <= t.due.len()
            &&& t.seen.len() - s.seen.len() == t.due.len() - s.due.len()
            &&& t.due.take(s.due.len() as int) == s.due
            &&& t.seen == s.seen + Seq::new(
                (t.due.len() - s.due.len()) as nat,
                |i: int| (t.due[s.due.len() + i].thread, t.due[s.due.len() + i].file),
            )
        }),
    decreases g,
{
    let t = s.planned(threads, found, g);
    if g > 0 {
        lemma_all_planned(s, threads, found, g - 1);
        let b = s.planned(threads, found, g - 1);
        lemma_one_planned(b, threads, found[g - 1], found[g - 1].threads.len() as int);
        assert(t.due.take(s.due.len() as int) =~= t.due.take(b.due.len() as int).take(
            s.due.len() as int,
        ));
        assert forall|i: int| 0 <= i < b.due.len() implies t.due[i] == b.due[i] by {
            assert(t.due[i] == t.due.take(b.due.len() as int)[i]);
        }
        assert(t.seen =~= s.seen + Seq::new(
            (t.due.len() - s.due.len()) as nat,
            |i: int| (t.due[s.due.len() + i].thread, t.due[s.due.len() + i].file),
        ));
    } else {
        assert(t.due.take(s.due.len() as int) =~= s.due);
        assert(t.seen =~= s.seen + Seq::new(
            0,
            |i: int| (t.due[s.due.len() + i].thread, t.due[s.due.len() + i].file),
        ));
    }
}

/// What a sweep remembers as scheduled is what was scheduled before it and, behind
/// that, each release it hands out, in order.
pub proof fn a_sweep_remembers_what_it_hands_out(m: ShellModel)
    requires
        m.threads.len() <= u32::MAX,
    ensures
        m.swept().0.auto_scheduled == m.auto_scheduled + Seq::new(
            m.swept().1.len(),
            |i: int| (m.swept().1[i].thread, m.swept().1[i].file),
        ),
{
    reveal(ShellModel::swept);
    if m.proactive != Proactive::Off {
        let found = signals::observed(m.threads);
        lemma_observed_listed(m);
        lemma_all_raised(m, found, found.len() as int);
        let raised = m.all_raised(found, found.len() as int);
        if m.proactive == Proactive::Auto {
            let again = signals::observed(raised.threads);
            let start = Schedule { seen: raised.auto_scheduled, due: Seq::empty() };
            lemma_all_planned(start, raised.threads, again, again.len() as int);
        }
    }
    assert(m.swept().0.auto_scheduled =~= m.auto_scheduled + Seq::new(
        m.swept().1.len(),
        |i: int| (m.swept().1[i].thread, m.swept().1[i].file),
    ));
}

/// So does the end of a turn, and there is nothing left that a sweep would do.
pub proof fn a_turn_ends_with_a_sweep(m: ShellModel, i: usize, replies: Seq<AgentReplyModel>)
    requires
        m.threads.len() <= u32::MAX,
        i < m.threads.len(),
    ensures
        ({
            let (after, due) = m.turn_ended(i, replies);
            &&& after.auto_scheduled == m.auto_scheduled + Seq::new(
                due.len(),
                |k: int| (due[k].thread, due[k].file),
            )
            &&& after.swept() == (after, Seq::<ReleaseModel>::empty())
        }),
{
    let ended = m.with_thread(
        i as int,
        m.threads[i as int].turn_ended(replies, i == m.active, m.put_back),
    );
    a_sweep_remembers_what_it_hands_out(ended);
    sweeping_again_changes_nothing(ended);
}

/// Whether `replies` answers the comments at the indices `at`, in order.
pub open spec fn answers_each(
    replies: Seq<AgentReplyModel>,
    thread: ThreadUiModel,
    at: Seq<int>,
) -> bool {
    &&& at.len() == replies.len()
    &&& forall|n: int, l: int| 0 <= n < l < at.len() ==> #[trigger] at[n] < #[trigger] at[l]
    &&& forall|k: int| #[trigger]
        at.contains(k) <==> 0 <= k < thread.comments.len() && thread.comments[k].delivery
            == Delivery::Pending
    &&& forall|n: int|
        0 <= n < at.len() ==> {
            let c = thread.comments[#[trigger] at[n]];
            &&& replies[n].in_reply_to == c.id
            &&& replies[n].quote == c.body
            &&& replies[n].quote_author == c.author
            &&& replies[n].turn == thread.turn
            &&& replies[n].body == words::reply_for(
                text::lowercase_of(c.body),
                threads::place_of(
                    c,
                    thread.diff_path(),
                    thread.seed.diff_file,
                    thread.seed.diff_lines,
                ),
            )
        }
}

proof fn lemma_answers_each(thread: ThreadUiModel, n: int) -> (at: Seq<int>)
    requires
        0 <= n <= thread.comments.len(),
    ensures
        answers_each(
            turns::answers(thread, n),
            ThreadUiModel { comments: thread.comments.take(n), ..thread },
            at,
        ),
    decreases n,
{
    let part = ThreadUiModel { comments: thread.comments.take(n), ..thread };
    if n == 0 {
        Seq::empty()
    } else {
        let before = ThreadUiModel { comments: thread.comments.take(n - 1), ..thread };
        let q = lemma_answers_each(thread, n - 1);
        assert forall|k: int| 0 <= k < n - 1 implies #[trigger] part.comments[k]
            == before.comments[k] by {}
        assert(part.comments[n - 1] == thread.comments[n - 1]);
        let at = if thread.comments[n - 1].delivery == Delivery::Pending {
            q.push(n - 1)
        } else {
            q
        };
        let all = turns::answers(thread, n);
        assert forall|l: int| 0 <= l < q.len() implies 0 <= #[trigger] q[l] < n - 1 by {
            assert(q.contains(q[l]));
        }
        assert forall|k: int| #[trigger] at.contains(k) <==> 0 <= k < part.comments.len()
            && part.comments[k].delivery == Delivery::Pending by {
            if at.contains(k) {
                let l = choose|l: int| 0 <= l < at.len() && at[l] == k;
                if l < q.len() {
                    assert(q[l] == k);
                    assert(q.contains(k));
                }
            }
            if 0 <= k < n && part.comments[k].delivery == Delivery::Pending {
                if k < n - 1 {
                    assert(q.contains(k));
                    let l = choose|l: int| 0 <= l < q.len() && q[l] == k;
                    assert(at[l] == k);
                } else {
                    assert(at[q.len() as int] == k);
                }
            }
        }
        assert forall|l: int| 0 <= l < at.len() implies {
            let c = part.comments[#[trigger] at[l]];
            &&& all[l].in_reply_to == c.id
            &&& all[l].quote == c.body
            &&& all[l].quote_author == c.author
            &&& all[l].turn == part.turn
            &&& all[l].body == words::reply_for(
                text::lowercase_of(c.body),
                threads::place_of(c, part.diff_path(), part.seed.diff_file, part.seed.diff_lines),
            )
        } by {
            if l < q.len() {
                assert(at[l] == q[l]);
                assert(part.comments[q[l]] == before.comments[q[l]]);
            }
        }
        at
    }
}

/// Sending a batch marks what is pending as delivered on the turn that was being
/// written and changes nothing else that was said; the agent is at work on the next
/// turn for a while, and will answer each comment that went, once, in order, by
/// name and quoting it.
pub proof fn a_batch_is_answered_comment_by_comment(m: ShellModel, j: int, k: int) -> (at: Seq<int>)
    requires
        m.active < m.threads.len(),
        m.current().turn < u32::MAX,
        0 <= j < m.threads.len(),
    ensures
        ({
            let (after, turn) = m.batch_sent();
            let was = m.threads[j];
            let now = after.threads[j];
            &&& answers_each(turn.replies, m.current(), at)
            &&& turn.thread == m.active
            &&& turn.millis == 2600
            &&& after == ShellModel { threads: after.threads, ..m }
            &&& after.threads.len() == m.threads.len()
            &&& j != m.active ==> now == was
            &&& j == m.active ==> {
                &&& now.agent_busy
                &&& now.turn == was.turn + 1
                &&& now == ThreadUiModel {
                    comments: now.comments,
                    turn: now.turn,
                    agent_busy: true,
                    ..was
                }
                &&& now.comments.len() == was.comments.len()
                &&& 0 <= k < was.comments.len() ==> {
                    let c = was.comments[k];
                    if c.delivery == Delivery::Pending {
                        now.comments[k] == UiCommentModel {
                            delivery: Delivery::Delivered { turn: was.turn },
                            ..c
                        }
                    } else {
                        now.comments[k] == c
                    }
                }
            }
        }),
{
    let thread = m.current();
    let at = lemma_answers_each(thread, thread.comments.len() as int);
    assert(thread.comments.take(thread.comments.len() as int) =~= thread.comments);
    at
}

/// Withholding and putting back touch one comment's standing with the agent, and
/// nothing else: what waits to be sent is taken out; what was taken out is pending
/// again, or waits for the boundary while the agent works, which is remembered.
pub proof fn withholding_touches_one_comment(m: ShellModel, id: u32, k: int)
    requires
        m.active < m.threads.len(),
        0 <= k < m.current().comments.len(),
        m.current().comments[k].id == id,
        forall|l: int| 0 <= l < k ==> (#[trigger] m.current().comments[l]).id != id,
    ensures
        ({
            let after = m.toggled(id);
            let was = m.current().comments[k];
            let becomes = match was.delivery {
                Delivery::Pending | Delivery::Queued => Delivery::Withheld,
                Delivery::Withheld => if m.current().agent_busy {
                    Delivery::Queued
                } else {
                    Delivery::Pending
                },
                _ => was.delivery,
            };
            &&& after.threads.len() == m.threads.len()
            &&& forall|j: int|
                0 <= j < m.threads.len() && j != m.active ==> #[trigger] after.threads[j]
                    == m.threads[j]
            &&& after.current() == ThreadUiModel {
                comments: after.current().comments,
                ..m.current()
            }
            &&& after.current().comments == m.current().comments.update(
                k,
                UiCommentModel { delivery: becomes, ..was },
            )
            &&& after == ShellModel { threads: after.threads, put_back: after.put_back, ..m }
            &&& after.put_back == if was.delivery == Delivery::Withheld && m.current().agent_busy {
                m.put_back.push(id)
            } else {
                m.put_back
            }
        }),
{
    let p = |c: UiCommentModel| c.id == id;
    lists::lemma_is_position(m.current().comments, p, k);
    let after = m.toggled(id);
    let was = m.current().comments[k];
    if after == m {
        assert(m.current().comments.update(k, was) =~= m.current().comments);
    }
}

/// Asking for a comment that the current thread does not hold changes nothing.
pub proof fn withholding_a_stranger_does_nothing(m: ShellModel, id: u32)
    requires
        forall|l: int|
            0 <= l < m.current().comments.len() ==> (#[trigger] m.current().comments[l]).id != id,
    ensures
        m.toggled(id) == m,
        m.answered(id, true) == m,
        m.answered(id, false) == m,
{
    lists::a_place_is_the_first(m.current().comments, |c: UiCommentModel| c.id == id, 0);
}

/// Whether the replies in thread `i` are those that were there, as they were and in their
/// order, and behind them `replies`.
pub open spec fn replies_follow(
    was: ShellModel,
    now: ShellModel,
    i: int,
    replies: Seq<AgentReplyModel>,
) -> bool {
    0 <= i < was.threads.len() ==> {
        let earlier = was.threads[i].replies;
        &&& now.threads[i].replies.len() == earlier.len() + replies.len()
        &&& forall|k: int|
            0 <= k < earlier.len() ==> #[trigger] now.threads[i].replies[k] == earlier[k]
        &&& forall|k: int|
            0 <= k < replies.len() ==> now.threads[i].replies[earlier.len() + k]
                == #[trigger] replies[k]
    }
}

/// When a turn ends, what the thread was answered before is followed by what the turn
/// brought.
pub proof fn lemma_replies_land_behind(m: ShellModel, i: usize, replies: Seq<AgentReplyModel>)
    requires
        m.threads.len() <= u32::MAX,
    ensures
        replies_follow(m, m.turn_ended(i, replies).0, i as int, replies),
{
    if i < m.threads.len() {
        let earlier = m.threads[i as int].replies;
        let now = m.turn_ended(i, replies).0.threads[i as int].replies;
        a_turn_ends_with_its_replies_behind_the_earlier_ones(m, i, replies, i as int, 0);
        assert forall|k: int| 0 <= k < earlier.len() implies #[trigger] now[k] == earlier[k] by {
            a_turn_ends_with_its_replies_behind_the_earlier_ones(m, i, replies, i as int, k);
        }
        assert forall|k: int| 0 <= k < replies.len() implies now[earlier.len() + k]
            == #[trigger] replies[k] by {
            a_turn_ends_with_its_replies_behind_the_earlier_ones(m, i, replies, i as int, k);
        }
    }
}

} // verus!
