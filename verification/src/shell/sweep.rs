//! The orchestrator's pass: raising findings into threads, and letting them
//! through to the agents.

use std::ops::Range;

use vstd::prelude::*;

use crate::lists;
use crate::model::anchor;
use crate::model::anchor::{BlockKind, PortableAnchor};
use crate::model::comment::Delivery;
use crate::seed;
use crate::shell::signals;
use crate::shell::signals::ObservationModel;
use crate::shell::state;
use crate::shell::state::{Proactive, Release, ReleaseModel, Shell, ShellModel};
use crate::shell::threads;
use crate::shell::threads::{
    CommentReplyModel, Provenance, ProvenanceModel, ThreadUi, ThreadUiModel, UiComment,
    UiCommentModel,
};
use crate::shell::words;
use crate::text;

verus! {

/// The releases auto mode has scheduled so far, and those of them that are new.
#[verifier::ext_equal]
pub ghost struct Schedule {
    pub seen: Seq<(usize, Seq<char>)>,
    pub due: Seq<ReleaseModel>,
}

/// How many lines of a diff a finding is anchored to.
pub open spec fn finding_span(thread: ThreadUiModel) -> int {
    if thread.seed.diff_lines.len() < 3 {
        thread.seed.diff_lines.len() as int
    } else {
        3
    }
}

impl ShellModel {
    /// The finding about `file` for thread `to`.
    pub open spec fn proposal(
        self,
        file: Seq<char>,
        to: usize,
        others: Seq<usize>,
    ) -> UiCommentModel {
        let thread = self.threads[to as int];
        let anchor = anchor::captured(
            thread.diff_snapshot(),
            BlockKind::DiffHunk,
            Range { start: 0, end: finding_span(thread) as u32 },
            false,
        );
        let body = signals::finding(self.threads, file, to, others);
        UiCommentModel {
            id: (self.next_id + 1) as u32,
            handle: thread.next_handle(),
            anchor,
            resolved: thread.resolved_in(anchor),
            body,
            author: seed::ME,
            mentions: words::mentioned(text::words(body)),
            origin: ProvenanceModel::Local,
            delivery: Delivery::Proposed,
            divergence: None,
            about: Some(file),
            replies: Seq::empty(),
        }
    }

    /// A sweep raises one finding per thread at most, and there are ids for them.
    pub open spec fn has_room(self) -> bool {
        self.proactive == Proactive::Off || self.next_id + self.threads.len() <= u32::MAX
    }

    /// The finding about `file` has been raised in thread `to`, or was turned
    /// down there.
    pub open spec fn settled(self, file: Seq<char>, to: usize) -> bool {
        ||| self.dismissed.contains((to, file))
        ||| state::has_finding(self.threads[to as int].comments, file)
    }

    /// With the finding about `file` raised in thread `to`, unless that was
    /// settled.
    pub open spec fn proposed(self, file: Seq<char>, to: usize, others: Seq<usize>) -> ShellModel {
        if self.settled(file, to) {
            self
        } else {
            let landed = self.with_comment(to as int, self.proposal(file, to, others));
            landed.with_thread(
                to as int,
                ThreadUiModel { unread: true, ..landed.threads[to as int] },
            )
        }
    }

    /// With an observation raised in the first `k` of the threads it lists.
    pub open spec fn raised(self, o: ObservationModel, k: int) -> ShellModel
        decreases k,
    {
        if k <= 0 {
            self
        } else {
            self.raised(o, k - 1).proposed(o.file, o.threads[k - 1], o.threads)
        }
    }

    /// With the first `g` observations raised in every thread they list.
    pub open spec fn all_raised(self, found: Seq<ObservationModel>, g: int) -> ShellModel
        decreases g,
    {
        if g <= 0 {
            self
        } else {
            self.all_raised(found, g - 1).raised(
                found[g - 1],
                found[g - 1].threads.len() as int,
            )
        }
    }

    /// After the orchestrator's pass, with the releases it schedules.
    #[verifier::opaque]
    pub open spec fn swept(self) -> (ShellModel, Seq<ReleaseModel>) {
        if self.proactive == Proactive::Off {
            (self, Seq::empty())
        } else {
            let found = signals::observed(self.threads);
            let raised = self.all_raised(found, found.len() as int);
            if self.proactive == Proactive::Auto {
                let again = signals::observed(raised.threads);
                let plan = (Schedule { seen: raised.auto_scheduled, due: Seq::empty() }).planned(
                    raised.threads,
                    again,
                    again.len() as int,
                );
                (ShellModel { auto_scheduled: plan.seen, ..raised }, plan.due)
            } else {
                (raised, Seq::empty())
            }
        }
    }

    /// After the workspace was put in `mode`.
    pub open spec fn in_mode(self, mode: Proactive) -> (ShellModel, Seq<ReleaseModel>) {
        let set = ShellModel {
            proactive: mode,
            auto_scheduled: if mode == Proactive::Auto {
                self.auto_scheduled
            } else {
                Seq::empty()
            },
            ..self
        };
        set.swept()
    }

    /// After what auto mode decided for thread `to` landed.
    pub open spec fn released(self, to: usize, file: Seq<char>) -> ShellModel {
        if self.proactive == Proactive::Auto && to < self.threads.len() {
            match lists::place(
                self.threads[to as int].comments,
                |c: UiCommentModel| c.is_about(file) && c.delivery == Delivery::Proposed,
            ) {
                Some(k) => self.with_delivery(to as int, k, Delivery::Pending),
                None => self,
            }
        } else {
            self
        }
    }

    /// After somebody let a finding in the current thread through, or kept it
    /// out.
    pub open spec fn answered(self, id: u32, show_agent: bool) -> ShellModel {
        let at = self.active as int;
        match self.current().comment_at(id) {
            None => self,
            Some(k) => if show_agent {
                self.with_delivery(at, k, Delivery::Pending)
            } else {
                let gone = self.current().comments[k];
                let left = self.with_thread(
                    at,
                    ThreadUiModel {
                        comments: self.current().comments.remove(k),
                        ..self.current()
                    },
                );
                match gone.about {
                    Some(file) => ShellModel {
                        dismissed: left.dismissed.push((self.active, file)),
                        ..left
                    },
                    None => left,
                }
            },
        }
    }
}

impl Schedule {
    /// With a release for thread `to`, if it is worth one and has none yet.
    /// Releases are staggered: each lands when that thread's agent next comes up
    /// for air, which is not the same moment for everybody.
    pub open spec fn with_release(
        self,
        threads: Seq<ThreadUiModel>,
        o: ObservationModel,
        to: usize,
    ) -> Schedule {
        if signals::worth_interrupting(threads, to, o.threads) && !self.seen.contains(
            (to, o.file),
        ) {
            Schedule {
                seen: self.seen.push((to, o.file)),
                due: self.due.push(
                    ReleaseModel {
                        thread: to,
                        file: o.file,
                        millis: (2000 + 8000 * self.due.len()) as u64,
                    },
                ),
            }
        } else {
            self
        }
    }

    /// With the first `k` of the threads an observation lists.
    pub open spec fn with_observation(
        self,
        threads: Seq<ThreadUiModel>,
        o: ObservationModel,
        k: int,
    ) -> Schedule
        decreases k,
    {
        if k <= 0 {
            self
        } else {
            self.with_observation(threads, o, k - 1).with_release(threads, o, o.threads[k - 1])
        }
    }

    /// With the first `g` observations.
    pub open spec fn planned(
        self,
        threads: Seq<ThreadUiModel>,
        found: Seq<ObservationModel>,
        g: int,
    ) -> Schedule
        decreases g,
    {
        if g <= 0 {
            self
        } else {
            self.planned(threads, found, g - 1).with_observation(
                threads,
                found[g - 1],
                found[g - 1].threads.len() as int,
            )
        }
    }
}

/// A finding has the next id, can travel, and keeps the shell well formed.
proof fn lemma_proposed(m: ShellModel, file: Seq<char>, to: usize, others: Seq<usize>)
    requires
        m.well_formed(),
        to < m.threads.len(),
        m.next_id < u32::MAX,
    ensures
        m.proposed(file, to, others).well_formed(),
        m.proposed(file, to, others).next_id <= m.next_id + 1,
        m.proposed(file, to, others).threads.len() == m.threads.len(),
{
    if !m.settled(file, to) {
        let c = m.proposal(file, to, others);
        let thread = m.threads[to as int];
        anchor::lemma_captured_is_well_formed(
            thread.diff_snapshot(),
            BlockKind::DiffHunk,
            Range { start: 0, end: finding_span(thread) as u32 },
            false,
        );
        lemma_mentions_fit(c.body);
        state::lemma_with_comment(m, to as int, c);
        let landed = m.with_comment(to as int, c);
        let after = m.proposed(file, to, others);
        assert forall|i: int| 0 <= i < after.threads.len() implies {
            &&& (#[trigger] after.threads[i]).seed == landed.threads[i].seed
            &&& state::same_identities(landed.threads[i].comments, after.threads[i].comments)
            &&& state::sent_to_threads(after.threads[i], after.threads.len())
        } by {
            assert(state::sent_to_threads(landed.threads[i], landed.threads.len()));
        }
        state::lemma_same_identities(landed, after);
    }
}

/// Whoever is mentioned fits an envelope.
pub proof fn lemma_mentions_fit(body: Seq<char>)
    ensures
        forall|i: int|
            0 <= i < words::mentioned(text::words(body)).len() ==> #[trigger] words::mentioned(
                text::words(body),
            )[i] <= u32::MAX,
{
    words::mentions_are_people_named_once(text::words(body));
    let all = words::mentioned(text::words(body));
    assert forall|i: int| 0 <= i < all.len() implies #[trigger] all[i] <= u32::MAX by {
        assert(all.contains(all[i]));
    }
}

impl Shell {
    /// Put an observation into a thread as something to approve, not as fact.
    pub fn propose_into(&mut self, file: &str, to: usize, others: &Vec<usize>)
        requires
            old(self).deep_view().well_formed(),
            to < old(self).threads.len(),
            forall|k: int| 0 <= k < others.len() ==> #[trigger] others@[k] < old(self).threads.len(),
            old(self).next_id < u32::MAX,
        ensures
            final(self).deep_view() == old(self).deep_view().proposed(file@, to, others@),
            final(self).deep_view().well_formed(),
            final(self).next_id <= old(self).next_id + 1,
            final(self).threads.len() == old(self).threads.len(),
    {
        let ghost m = self.deep_view();
        proof {
            lemma_proposed(m, file@, to, others@);
            assert(m.threads[to as int] == self.threads@[to as int].deep_view());
            assert(m.threads[to as int].seed.numbered());
        }
        if state::holds_pair(&self.dismissed, to, file) {
            return;
        }
        if mentions_file(&self.threads[to], file) {
            return;
        }
        let body = signals::proposal_body(&self.threads, file, to, others);
        let thread = &self.threads[to];
        let span: u32 = if thread.seed.diff_lines.len() < 3 {
            thread.seed.diff_lines.len() as u32
        } else {
            3
        };
        let anchor = PortableAnchor::capture(
            &thread.diff_snapshot(),
            BlockKind::DiffHunk,
            0..span,
            false,
        );
        proof {
            anchor::lemma_captured_is_well_formed(
                thread.deep_view().diff_snapshot(),
                BlockKind::DiffHunk,
                Range { start: 0, end: span },
                false,
            );
        }
        let resolved = threads::resolve_in(thread, &anchor);
        let handle = threads::comment_handle(thread);
        let mentions = words::parse_mentions(body.as_str());
        let comment = UiComment {
            id: self.next_id + 1,
            handle,
            anchor,
            resolved,
            body,
            author: seed::ME,
            mentions,
            origin: Provenance::Local,
            // Always raised held. Auto releases it a beat later, per thread,
            // rather than everything going through the instant it is noticed.
            delivery: Delivery::Proposed,
            divergence: None,
            about: Some(file.to_owned()),
            replies: Vec::new(),
        };
        assert(comment.replies.deep_view() =~= Seq::<CommentReplyModel>::empty());
        assert(comment.deep_view() =~= m.proposal(file@, to, others@));
        self.add_comment(to, comment);
        let ghost landed = self.deep_view();
        assert(landed.threads[to as int] == self.threads@[to as int].deep_view());
        self.threads[to].unread = true;
        assert(self.threads.deep_view() =~= m.proposed(file@, to, others@).threads);
    }

    /// The orchestrator's pass. Detection cannot live inside a thread -- no
    /// thread can see another's worktree -- so this runs above them and pushes
    /// into every thread involved. Nobody has to go looking for it.
    ///
    /// Switching to auto hands the judgement over, including on things already
    /// being held. It is not instant: something has to weigh each one, so the
    /// releases land a beat later rather than the moment the mode changes.
    pub fn sweep(&mut self) -> (r: Vec<Release>)
        requires
            old(self).deep_view().well_formed(),
            old(self).deep_view().has_room(),
        ensures
            final(self).deep_view() == old(self).deep_view().swept().0,
            r.deep_view() == old(self).deep_view().swept().1,
            final(self).deep_view().well_formed(),
    {
        let ghost m = self.deep_view();
        proof {
            reveal(ShellModel::swept);
        }
        if !self.proactive.on() {
            let none: Vec<Release> = Vec::new();
            assert(none.deep_view() =~= Seq::<ReleaseModel>::empty());
            return none;
        }
        let found = self.observations();
        let ghost obs = found.deep_view();
        proof {
            signals::observations_are_the_shared_files(m.threads);
            lemma_listed_prefix(obs, obs.len() as int);
        }
        let mut g: usize = 0;
        while g < found.len()
            invariant
                obs == found.deep_view(),
                obs == signals::observed(m.threads),
                m.threads.len() <= usize::MAX,
                signals::listed(obs) <= m.threads.len(),
                m.next_id + m.threads.len() <= u32::MAX,
                g <= found.len(),
                self.deep_view() == m.all_raised(obs, g as int),
                self.deep_view().well_formed(),
                self.threads.len() == m.threads.len(),
                self.proactive == m.proactive,
                self.next_id <= m.next_id + signals::listed(obs.take(g as int)),
            decreases found.len() - g,
        {
            let ghost base = self.deep_view();
            let ghost o = obs[g as int];
            let ghost base_id = self.next_id;
            assert(o == found@[g as int].deep_view());
            proof {
                lemma_listed_prefix(obs, g + 1);
            }
            let n = found[g].threads.len();
            let mut k: usize = 0;
            while k < n
                invariant
                    obs == found.deep_view(),
                    obs == signals::observed(m.threads),
                    m.threads.len() <= usize::MAX,
                    m.next_id + m.threads.len() <= u32::MAX,
                    signals::listed(obs) <= m.threads.len(),
                    g < found.len(),
                    o == found@[g as int].deep_view(),
                    o == obs[g as int],
                    n == o.threads.len(),
                    k <= n,
                    base_id + n <= m.next_id + signals::listed(obs.take(g + 1)),
                    signals::listed(obs.take(g + 1)) <= signals::listed(obs),
                    self.deep_view() == base.raised(o, k as int),
                    self.deep_view().well_formed(),
                    self.threads.len() == m.threads.len(),
                    self.proactive == m.proactive,
                    self.next_id <= base_id + k,
                decreases n - k,
            {
                proof {
                    assert forall|j: int| 0 <= j < o.threads.len() implies #[trigger] o.threads[j]
                        < m.threads.len() by {
                        signals::lemma_observed_exist(m.threads, g as int, j);
                    }
                }
                let to = found[g].threads[k];
                self.propose_into(found[g].file.as_str(), to, &found[g].threads);
                k += 1;
            }
            g += 1;
        }
        if self.proactive == Proactive::Auto {
            self.schedule()
        } else {
            let none: Vec<Release> = Vec::new();
            assert(none.deep_view() =~= Seq::<ReleaseModel>::empty());
            none
        }
    }

    /// Schedules the releases of what is worth interrupting for.
    fn schedule(&mut self) -> (r: Vec<Release>)
        requires
            old(self).deep_view().well_formed(),
        ensures
            ({
                let m = old(self).deep_view();
                let found = signals::observed(m.threads);
                let plan = (Schedule { seen: m.auto_scheduled, due: Seq::empty() }).planned(
                    m.threads,
                    found,
                    found.len() as int,
                );
                &&& final(self).deep_view() == (ShellModel { auto_scheduled: plan.seen, ..m })
                &&& r.deep_view() == plan.due
            }),
            final(self).deep_view().well_formed(),
    {
        let ghost m = self.deep_view();
        let ghost start = Schedule { seen: m.auto_scheduled, due: Seq::empty() };
        let found = self.observations();
        let ghost obs = found.deep_view();
        proof {
            signals::observations_are_the_shared_files(m.threads);
        }
        let mut due: Vec<Release> = Vec::new();
        assert(due.deep_view() =~= Seq::<ReleaseModel>::empty());
        let mut g: usize = 0;
        while g < found.len()
            invariant
                m.well_formed(),
                obs == found.deep_view(),
                obs == signals::observed(m.threads),
                signals::listed(obs) <= m.threads.len() <= u32::MAX,
                g <= found.len(),
                self.deep_view() == (ShellModel {
                    auto_scheduled: start.planned(m.threads, obs, g as int).seen,
                    ..m
                }),
                due.deep_view() == start.planned(m.threads, obs, g as int).due,
                due.len() <= signals::listed(obs.take(g as int)),
            decreases found.len() - g,
        {
            let ghost base = start.planned(m.threads, obs, g as int);
            let ghost o = obs[g as int];
            let ghost base_len = due.len();
            assert(o == found@[g as int].deep_view());
            proof {
                lemma_listed_prefix(obs, g + 1);
            }
            let n = found[g].threads.len();
            let mut k: usize = 0;
            while k < n
                invariant
                    m.well_formed(),
                    obs == found.deep_view(),
                    obs == signals::observed(m.threads),
                    signals::listed(obs) <= m.threads.len() <= u32::MAX,
                    g < found.len(),
                    o == found@[g as int].deep_view(),
                    o == obs[g as int],
                    n == o.threads.len(),
                    k <= n,
                    base_len + n <= signals::listed(obs.take(g + 1)) <= signals::listed(obs),
                    self.deep_view() == (ShellModel {
                        auto_scheduled: base.with_observation(m.threads, o, k as int).seen,
                        ..m
                    }),
                    due.deep_view() == base.with_observation(m.threads, o, k as int).due,
                    due.len() <= base_len + k,
                decreases n - k,
            {
                proof {
                    assert forall|j: int| 0 <= j < o.threads.len() implies #[trigger] o.threads[j]
                        < m.threads.len() by {
                        signals::lemma_observed_exist(m.threads, g as int, j);
                    }
                }
                let to = found[g].threads[k];
                let ghost now = base.with_observation(m.threads, o, k as int);
                assert(self.threads.deep_view() == m.threads);
                if signals::confident_about(&self.threads, to, &found[g].threads)
                    && !state::holds_pair(&self.auto_scheduled, to, found[g].file.as_str()) {
                    let ghost seen = self.auto_scheduled.deep_view();
                    let ghost before = due.deep_view();
                    let file = found[g].file.clone();
                    self.auto_scheduled.push((to, file));
                    assert(self.auto_scheduled.deep_view() =~= seen.push((to, o.file)));
                    let millis: u64 = 2_000 + 8_000 * (due.len() as u64);
                    let release = Release { thread: to, file: found[g].file.clone(), millis };
                    due.push(release);
                    assert(due.deep_view() =~= before.push(release.deep_view()));
                }
                k += 1;
            }
            g += 1;
        }
        due
    }

    /// Puts the workspace in another mode.
    pub fn set_mode(&mut self, mode: Proactive) -> (r: Vec<Release>)
        requires
            old(self).deep_view().well_formed(),
            mode == Proactive::Off || old(self).next_id + old(self).threads.len() <= u32::MAX,
        ensures
            final(self).deep_view() == old(self).deep_view().in_mode(mode).0,
            r.deep_view() == old(self).deep_view().in_mode(mode).1,
            final(self).deep_view().well_formed(),
    {
        let ghost m = self.deep_view();
        self.proactive = mode;
        if mode != Proactive::Auto {
            self.auto_scheduled = Vec::new();
        }
        proof {
            let set = self.deep_view();
            if mode != Proactive::Auto {
                assert(set.auto_scheduled =~= Seq::<(usize, Seq<char>)>::empty());
            }
            assert(set.threads == m.threads && set.put_back == m.put_back && set.demo == m.demo);
            assert(set.well_formed());
        }
        self.sweep()
    }

    /// The toggle in the status bar.
    pub fn cycle_mode(&mut self) -> (r: Vec<Release>)
        requires
            old(self).deep_view().well_formed(),
            old(self).proactive == Proactive::Auto || old(self).next_id + old(self).threads.len()
                <= u32::MAX,
        ensures
            final(self).deep_view() == old(self).deep_view().in_mode(
                old(self).deep_view().proactive.spec_next(),
            ).0,
            r.deep_view() == old(self).deep_view().in_mode(
                old(self).deep_view().proactive.spec_next(),
            ).1,
            final(self).deep_view().well_formed(),
    {
        let next = self.proactive.next();
        self.set_mode(next)
    }

    /// One thread's turn comes up and what auto decided for it lands.
    ///
    /// The delay stands in for waiting on that agent: nothing is spliced into a
    /// prompt already in flight, so the notification arrives at a boundary
    /// rather than the instant the mode changed.
    pub fn auto_release(&mut self, target: usize, file: &str)
        requires
            old(self).deep_view().well_formed(),
        ensures
            final(self).deep_view() == old(self).deep_view().released(target, file@),
            final(self).deep_view().well_formed(),
    {
        if self.proactive != Proactive::Auto || target >= self.threads.len() {
            return;
        }
        let ghost m = self.deep_view();
        let ghost all = m.threads[target as int].comments;
        let ghost p = |c: UiCommentModel| c.is_about(file@) && c.delivery == Delivery::Proposed;
        assert(all == self.threads@[target as int].comments.deep_view());
        let n = self.threads[target].comments.len();
        let mut k: usize = 0;
        while k < n
            invariant
                self.deep_view() == m,
                m == old(self).deep_view(),
                m.well_formed(),
                m.proactive == Proactive::Auto,
                target < self.threads.len(),
                n == self.threads@[target as int].comments.len(),
                all == m.threads[target as int].comments,
                all == self.threads@[target as int].comments.deep_view(),
                p == (|c: UiCommentModel| c.is_about(file@) && c.delivery == Delivery::Proposed),
                k <= n,
                lists::position(all, p) == lists::position_from(all, p, k as int),
            decreases n - k,
        {
            assert(all[k as int] == self.threads@[target as int].comments@[k as int].deep_view());
            let found = self.threads[target].comments[k].delivery == Delivery::Proposed
                && about_file(&self.threads[target].comments[k], file);
            if found {
                self.set_delivery(target, k, Delivery::Pending);
                proof {
                    lemma_with_delivery(m, target as int, k as int, Delivery::Pending);
                }
                return;
            }
            k += 1;
        }
    }

    /// Let it through to the agent, or keep it out.
    ///
    /// Deliberately *not* a verdict. Showing the agent means the agent now has
    /// the information; it says nothing about what anyone decided to do, and
    /// the two threads can still disagree afterwards. Whether the underlying
    /// question was settled is a separate thing, and it does not live on a
    /// comment.
    pub fn resolve_proposal(&mut self, id: u32, show_agent: bool)
        requires
            old(self).deep_view().well_formed(),
        ensures
            final(self).deep_view() == old(self).deep_view().answered(id, show_agent),
            final(self).deep_view().well_formed(),
    {
        let ghost m = self.deep_view();
        let active = self.active;
        assert(m.current() == self.threads@[active as int].deep_view());
        let k = match self.threads[active].find_comment(id) {
            Some(k) => k,
            None => {
                return;
            },
        };
        if show_agent {
            self.set_delivery(active, k, Delivery::Pending);
            proof {
                lemma_with_delivery(m, active as int, k as int, Delivery::Pending);
            }
        } else {
            let ghost was = m.current().comments;
            assert(was[k as int] == self.threads@[active as int].comments@[k as int].deep_view());
            let gone = self.threads[active].comments.remove(k);
            assert(self.threads@[active as int].comments.deep_view() =~= was.remove(k as int));
            let ghost left = m.with_thread(
                active as int,
                ThreadUiModel { comments: was.remove(k as int), ..m.current() },
            );
            assert(self.threads.deep_view() =~= left.threads);
            proof {
                state::lemma_without_comment(m, active as int, k as int);
            }
            if let Some(file) = gone.about {
                let ghost before = self.dismissed.deep_view();
                self.dismissed.push((active, file));
                assert(self.dismissed.deep_view() =~= before.push((active, file@)));
            }
        }
    }
}

/// Changing how far a comment got keeps the shell well formed.
pub proof fn lemma_with_delivery(m: ShellModel, i: int, k: int, delivery: Delivery)
    requires
        m.well_formed(),
        0 <= i < m.threads.len(),
        0 <= k < m.threads[i].comments.len(),
    ensures
        m.with_delivery(i, k, delivery).well_formed(),
{
    let after = m.with_delivery(i, k, delivery);
    assert forall|j: int| 0 <= j < after.threads.len() implies {
        &&& (#[trigger] after.threads[j]).seed == m.threads[j].seed
        &&& state::same_identities(m.threads[j].comments, after.threads[j].comments)
        &&& state::sent_to_threads(after.threads[j], after.threads.len())
    } by {
        assert(state::sent_to_threads(m.threads[j], m.threads.len()));
    }
    state::lemma_same_identities(m, after);
}

proof fn lemma_listed_prefix(found: Seq<ObservationModel>, g: int)
    requires
        0 <= g <= found.len(),
    ensures
        signals::listed(found.take(g)) <= signals::listed(found),
        g > 0 ==> signals::listed(found.take(g)) == signals::listed(found.take(g - 1))
            + found[g - 1].threads.len(),
    decreases found.len() - g,
{
    if g > 0 {
        assert(found.take(g).drop_last() =~= found.take(g - 1));
    }
    if g < found.len() {
        lemma_listed_prefix(found, g + 1);
        assert(found.take(g + 1).drop_last() =~= found.take(g));
    } else {
        assert(found.take(g) =~= found);
    }
}

/// Whether a comment is a finding about that file.
fn about_file(comment: &UiComment, file: &str) -> (r: bool)
    ensures
        r == comment.deep_view().is_about(file@),
{
    match &comment.about {
        Some(about) => text::same_text(about.as_str(), file),
        None => false,
    }
}

/// Whether a thread holds a finding about that file.
fn mentions_file(thread: &ThreadUi, file: &str) -> (r: bool)
    ensures
        r == state::has_finding(thread.deep_view().comments, file@),
{
    let ghost all = thread.comments.deep_view();
    let mut k: usize = 0;
    while k < thread.comments.len()
        invariant
            all == thread.comments.deep_view(),
            k <= thread.comments.len(),
            forall|j: int| 0 <= j < k ==> !(#[trigger] all[j]).is_about(file@),
        decreases thread.comments.len() - k,
    {
        assert(all[k as int] == thread.comments@[k as int].deep_view());
        if about_file(&thread.comments[k], file) {
            return true;
        }
        k += 1;
    }
    false
}

} // verus!
