//! Opening the shell on what is already there.

use std::ops::Range;

use vstd::prelude::*;

use crate::composer::{Composer, ComposerModel};
use crate::lists;
use crate::model::anchor;
use crate::model::anchor::{AnchorModel, BlockKind, PortableAnchor};
use crate::model::comment::Delivery;
use crate::seed;
use crate::seed::{
    SeedAnchor, SeedComment, SeedCommentModel, SeedDivergence, SeedDivergenceModel,
    SeedProjectModel, SeedThread, SeedThreadModel, Status,
};
use crate::shell::state;
use crate::shell::state::{Forwarding, Pane, Proactive, Shell, ShellModel, Turn, TurnModel};
use crate::shell::sweep;
use crate::shell::threads;
use crate::shell::threads::{
    AgentReplyModel, CommentReplyModel, Provenance, ProvenanceModel, ThreadUi, ThreadUiModel,
    UiComment, UiCommentModel,
};
use crate::shell::words;
use crate::text;

verus! {

proof fn lemma_rows_ascend(rows: Seq<(u32, char, &'static str)>, first: u32)
    requires
        first + rows.len() < u32::MAX,
        forall|i: int| 0 <= i < rows.len() ==> (#[trigger] rows[i]).0 == first + i,
    ensures
        forall|t: SeedThreadModel|
            t.diff_lines == seed::lines_of(rows) ==> #[trigger] t.numbered(),
{
}

proof fn lemma_seeds_are_numbered()
    ensures
        seed::labels_thread().numbered(),
        seed::retry_thread().numbered(),
        seed::jitter_thread().numbered(),
        seed::wrapping_thread().numbered(),
        seed::keybinding_thread().numbered(),
{
    lemma_rows_ascend(seed::LABELS_DIFF@, 77);
    lemma_rows_ascend(seed::REGISTRY_DIFF@, 40);
    lemma_rows_ascend(seed::JITTER_DIFF@, 58);
    lemma_rows_ascend(seed::WRAPPING_DIFF@, 12);
    lemma_rows_ascend(seed::KEYBINDING_DIFF@, 13);
}

// ------------------------------------------------------------------ threads --

/// A thread nothing has happened in yet.
pub open spec fn fresh(thread: SeedThreadModel, project: Seq<char>) -> ThreadUiModel {
    ThreadUiModel {
        seed: thread,
        project,
        comments: Seq::empty(),
        replies: Seq::empty(),
        sent: Seq::empty(),
        turn: 1,
        unread: thread.unread,
        agent_busy: thread.status == Status::Running,
    }
}

/// The threads of a project.
pub open spec fn fresh_in(project: SeedProjectModel) -> Seq<ThreadUiModel> {
    project.threads.map_values(|t: SeedThreadModel| fresh(t, project.name))
}

/// The threads of some projects, one after another.
pub open spec fn fresh_of(projects: Seq<SeedProjectModel>) -> Seq<ThreadUiModel>
    decreases projects.len(),
{
    if projects.len() == 0 {
        Seq::empty()
    } else {
        fresh_of(projects.drop_last()) + fresh_in(projects.last())
    }
}

/// Where the first thread with that title stands.
pub open spec fn place_titled(threads: Seq<ThreadUiModel>, title: Seq<char>) -> Option<int> {
    lists::place(threads, |t: ThreadUiModel| t.seed.title == title)
}

/// Where the first thread with that title stands.
pub fn find_thread(threads: &Vec<ThreadUi>, title: &str) -> (r: Option<usize>)
    ensures
        match r {
            Some(i) => i < threads.len() && place_titled(threads.deep_view(), title@) == Some(
                i as int,
            ),
            None => place_titled(threads.deep_view(), title@) is None,
        },
{
    let ghost all = threads.deep_view();
    let ghost p = |t: ThreadUiModel| t.seed.title == title@;
    let mut i: usize = 0;
    while i < threads.len()
        invariant
            all == threads.deep_view(),
            p == (|t: ThreadUiModel| t.seed.title == title@),
            i <= threads.len(),
            lists::position(all, p) == lists::position_from(all, p, i as int),
        decreases threads.len() - i,
    {
        assert(all[i as int] == threads@[i as int].deep_view());
        if text::same_text(threads[i].seed.title, title) {
            return Some(i);
        }
        i += 1;
    }
    None
}

/// A thread nothing has happened in yet.
pub fn fresh_thread(thread: SeedThread, project: &'static str) -> (r: ThreadUi)
    ensures
        r.deep_view() == fresh(thread.deep_view(), project@),
{
    let unread = thread.unread;
    let agent_busy = thread.status == Status::Running;
    let r = ThreadUi {
        seed: thread,
        project,
        comments: Vec::new(),
        replies: Vec::new(),
        sent: Vec::new(),
        turn: 1,
        unread,
        agent_busy,
    };
    assert(r.deep_view() =~= fresh(thread.deep_view(), project@));
    r
}

fn fresh_threads() -> (r: Vec<ThreadUi>)
    ensures
        r.deep_view() == fresh_of(seed::every_project()),
{
    let projects = seed::projects();
    let ghost all = projects.deep_view();
    let mut out: Vec<ThreadUi> = Vec::new();
    let mut i: usize = 0;
    assert(out.deep_view() =~= fresh_of(all.take(0)));
    while i < projects.len()
        invariant
            all == projects.deep_view(),
            i <= projects.len(),
            out.deep_view() == fresh_of(all.take(i as int)),
        decreases projects.len() - i,
    {
        let ghost before = out.deep_view();
        let ghost mine = fresh_in(all[i as int]);
        assert(all[i as int] == projects@[i as int].deep_view());
        let mut j: usize = 0;
        assert(out.deep_view() =~= before + mine.take(0));
        while j < projects[i].threads.len()
            invariant
                i < projects.len(),
                all == projects.deep_view(),
                all[i as int] == projects@[i as int].deep_view(),
                mine == fresh_in(all[i as int]),
                j <= projects@[i as int].threads.len(),
                out.deep_view() == before + mine.take(j as int),
            decreases projects@[i as int].threads.len() - j,
        {
            let ghost so_far = out.deep_view();
            let thread = fresh_thread(projects[i].threads[j].clone(), projects[i].name);
            assert(thread.deep_view() == mine[j as int]) by {
                assert(all[i as int].threads[j as int]
                    == projects@[i as int].threads@[j as int].deep_view());
            }
            out.push(thread);
            assert(out.deep_view() =~= so_far.push(mine[j as int]));
            j += 1;
            assert(out.deep_view() =~= before + mine.take(j as int));
        }
        assert(mine.take(mine.len() as int) =~= mine);
        assert(all.take(i + 1).drop_last() =~= all.take(i as int));
        i += 1;
    }
    assert(all.take(all.len() as int) =~= all);
    out
}

proof fn lemma_fresh_in(project: SeedProjectModel)
    requires
        forall|k: int| 0 <= k < project.threads.len() ==> (#[trigger] project.threads[k]).numbered(),
    ensures
        forall|k: int|
            0 <= k < fresh_in(project).len() ==> (#[trigger] fresh_in(project)[k]).seed.numbered(),
{
    assert forall|k: int| 0 <= k < fresh_in(project).len() implies (
    #[trigger] fresh_in(project)[k]).seed.numbered() by {
        assert(project.threads[k].numbered());
    }
}

proof fn lemma_fresh_of(projects: Seq<SeedProjectModel>)
    requires
        forall|g: int, k: int|
            #![trigger projects[g].threads[k]]
            0 <= g < projects.len() && 0 <= k < projects[g].threads.len()
                ==> projects[g].threads[k].numbered(),
    ensures
        forall|i: int|
            0 <= i < fresh_of(projects).len() ==> (#[trigger] fresh_of(
                projects,
            )[i]).seed.numbered() && fresh_of(projects)[i].comments.len() == 0 && fresh_of(
                projects,
            )[i].sent.len() == 0,
        fresh_of(projects).len() == seed::threads_of(projects).len(),
    decreases projects.len(),
{
    if projects.len() > 0 {
        let front = projects.drop_last();
        assert forall|g: int, k: int|
            #![trigger front[g].threads[k]]
            0 <= g < front.len() && 0 <= k < front[g].threads.len() implies front[g].threads[k]
            .numbered() by {
            assert(projects[g].threads[k].numbered());
        }
        lemma_fresh_of(front);
        let last = projects.last();
        assert forall|k: int| 0 <= k < last.threads.len() implies (
        #[trigger] last.threads[k]).numbered() by {
            assert(projects[projects.len() - 1].threads[k].numbered());
        }
        lemma_fresh_in(last);
        let all = fresh_of(projects);
        let before = fresh_of(front);
        assert forall|i: int| 0 <= i < all.len() implies (#[trigger] all[i]).seed.numbered()
            && all[i].comments.len() == 0 && all[i].sent.len() == 0 by {
            if i < before.len() {
                assert(all[i] == before[i]);
            } else {
                assert(all[i] == fresh_in(last)[i - before.len()]);
            }
        }
    }
}

proof fn lemma_every_project()
    ensures
        forall|g: int, k: int|
            #![trigger seed::every_project()[g].threads[k]]
            0 <= g < seed::every_project().len() && 0 <= k < seed::every_project()[g].threads.len()
                ==> seed::every_project()[g].threads[k].numbered(),
        seed::threads_of(seed::every_project()).len() == 16,
{
    lemma_seeds_are_numbered();
    let ps = seed::every_project();
    reveal_with_fuel(seed::threads_of, 8);
    assert(ps.len() == 7);
    assert(seed::delta_threads().len() == 13);
    assert forall|g: int, k: int|
        #![trigger ps[g].threads[k]]
        0 <= g < ps.len() && 0 <= k < ps[g].threads.len() implies ps[g].threads[k].numbered() by {
        if g == 3 {
            assert(ps[3].threads == seed::delta_threads());
        }
    }
}

// ----------------------------------------------------------------- comments --

/// The anchor for what a seeded comment points at.
pub open spec fn seeded_anchor(thread: ThreadUiModel, anchor: SeedAnchor) -> AnchorModel {
    match anchor {
        SeedAnchor::Prose(i) => anchor::captured(
            thread.prose_snapshot(),
            BlockKind::Paragraph,
            Range { start: i as u32, end: (i + 1) as u32 },
            false,
        ),
        SeedAnchor::Diff(a, b) => anchor::captured(
            thread.diff_snapshot(),
            BlockKind::DiffHunk,
            Range { start: a as u32, end: (b + 1) as u32 },
            false,
        ),
    }
}

/// Its lines can be counted and do not run backwards.
pub open spec fn seed_anchor_valid(anchor: SeedAnchor) -> bool {
    match anchor {
        SeedAnchor::Prose(i) => i < u32::MAX,
        SeedAnchor::Diff(a, b) => a <= b < u32::MAX,
    }
}

fn anchor_seeded(thread: &ThreadUi, anchor: SeedAnchor) -> (r: PortableAnchor)
    requires
        seed_anchor_valid(anchor),
    ensures
        r.deep_view() == seeded_anchor(thread.deep_view(), anchor),
        r.deep_view().well_formed(),
{
    let (snapshot, kind, lines) = match anchor {
        SeedAnchor::Prose(i) => (
            thread.prose_snapshot(),
            BlockKind::Paragraph,
            i as u32..(i as u32 + 1),
        ),
        SeedAnchor::Diff(a, b) => (
            thread.diff_snapshot(),
            BlockKind::DiffHunk,
            a as u32..(b as u32 + 1),
        ),
    };
    proof {
        anchor::lemma_captured_is_well_formed(snapshot.deep_view(), kind, lines, false);
    }
    PortableAnchor::capture(&snapshot, kind, lines, false)
}

/// What the workspace says to a thread about a divergence.
pub open spec fn flag_body(
    owner: Seq<char>,
    subject: Seq<char>,
    mine: Seq<char>,
    other: Seq<char>,
    theirs: Seq<char>,
) -> Seq<char> {
    "@"@ + owner + " both threads are deciding "@ + subject + ". Here we "@ + mine + "; \""@ + other
        + "\" will "@ + theirs
        + ".                      Nothing overlaps, so this merges cleanly and ships twice."@
}

fn write_flag(owner: &str, subject: &str, mine: &str, other: &str, theirs: &str) -> (r: String)
    ensures
        r@ == flag_body(owner@, subject@, mine@, other@, theirs@),
{
    let mut out = "@".to_owned();
    out.append(owner);
    out.append(" both threads are deciding ");
    out.append(subject);
    out.append(". Here we ");
    out.append(mine);
    out.append("; \"");
    out.append(other);
    out.append("\" will ");
    out.append(theirs);
    out.append(
        ".                      Nothing overlaps, so this merges cleanly and ships twice.",
    );
    out
}

impl ShellModel {
    /// With a comment that was already there. It arrives by exactly the same
    /// rule as a forward, so there is no special case to explain.
    pub open spec fn seeded(self, c: SeedCommentModel) -> ShellModel {
        match place_titled(self.threads, c.thread) {
            Some(i) => {
                let thread = self.threads[i];
                let anchor = seeded_anchor(thread, c.anchor);
                self.with_comment(
                    i,
                    UiCommentModel {
                        id: (self.next_id + 1) as u32,
                        handle: thread.next_handle(),
                        anchor,
                        resolved: thread.resolved_in(anchor),
                        body: c.body,
                        author: c.author,
                        mentions: words::mentioned(text::words(c.body)),
                        origin: ProvenanceModel::Local,
                        delivery: threads::arrival(
                            seed::everyone()[c.author as int].agent,
                            thread.agent_busy,
                        ),
                        divergence: None,
                        about: None,
                        replies: Seq::empty(),
                    },
                )
            },
            None => self,
        }
    }

    /// With the first `n` of the comments that were already there.
    pub open spec fn all_seeded(self, comments: Seq<SeedCommentModel>, n: int) -> ShellModel
        decreases n,
    {
        if n <= 0 {
            self
        } else {
            self.all_seeded(comments, n - 1).seeded(comments[n - 1])
        }
    }

    /// With a divergence flagged in the thread with that title, if that is one
    /// of its sides. A flag is not a note to the model. The *verdict* is.
    pub open spec fn flagged(self, d: int, divergence: SeedDivergenceModel, title: Seq<char>) ->
        ShellModel {
        match (
            place_titled(self.threads, title),
            divergence.sides(title),
            divergence.block_for(title),
        ) {
            (Some(i), Some((mine, theirs, other)), Some(block)) => {
                let thread = self.threads[i];
                let anchor = seeded_anchor(thread, SeedAnchor::Prose(block));
                let body = flag_body(
                    seed::everyone()[divergence.owner as int].handle,
                    divergence.subject,
                    mine,
                    other,
                    theirs,
                );
                self.with_comment(
                    i,
                    UiCommentModel {
                        id: (self.next_id + 1) as u32,
                        handle: thread.next_handle(),
                        anchor,
                        resolved: thread.resolved_in(anchor),
                        body,
                        author: seed::first_agent(seed::everyone()) as usize,
                        mentions: words::mentioned(text::words(body)),
                        origin: ProvenanceModel::Local,
                        delivery: Delivery::Withheld,
                        divergence: Some(d as usize),
                        about: None,
                        replies: Seq::empty(),
                    },
                )
            },
            _ => self,
        }
    }

    /// With the first `n` divergences flagged on both their sides.
    pub open spec fn all_flagged(self, divergences: Seq<SeedDivergenceModel>, n: int) -> ShellModel
        decreases n,
    {
        if n <= 0 {
            self
        } else {
            let d = divergences[n - 1];
            self.all_flagged(divergences, n - 1).flagged(n - 1, d, d.a_thread).flagged(
                n - 1,
                d,
                d.b_thread,
            )
        }
    }

    /// The shell with nothing said in it yet, on the thread it opens on.
    pub open spec fn blank() -> ShellModel {
        let threads = fresh_of(seed::every_project());
        ShellModel {
            threads,
            active: match place_titled(threads, seed::LABELS@) {
                Some(i) => i as usize,
                None => 0,
            },
            target: None,
            composer: ComposerModel {
                content: Seq::empty(),
                placeholder: PLACEHOLDER@,
                start: 0,
                end: 0,
                reversed: false,
                marked: None,
                selecting: false,
            },
            mention_sel: 0,
            picker_dismissed: false,
            forwarding: Forwarding::Idle,
            view: Pane::Thread,
            dismissed: Seq::empty(),
            auto_scheduled: Seq::empty(),
            put_back: Seq::empty(),
            demo: Seq::empty(),
            proactive: Proactive::Off,
            next_id: 0,
        }
    }

    /// The shell as it opens.
    pub open spec fn opened() -> ShellModel {
        ShellModel::blank().all_seeded(
            seed::every_comment(),
            seed::every_comment().len() as int,
        ).all_flagged(seed::every_divergence(), seed::every_divergence().len() as int)
    }
}

pub const PLACEHOLDER: &'static str = "Type to comment, @ to mention, Enter to send, Esc to cancel";

/// The turns that are under way in the first `k` threads. Other people's agents
/// are mid-flight: they finish on their own, on a stagger.
pub open spec fn under_way(threads: Seq<ThreadUiModel>, k: int) -> Seq<TurnModel>
    decreases k,
{
    if k <= 0 {
        Seq::empty()
    } else if threads[k - 1].agent_busy {
        under_way(threads, k - 1).push(
            TurnModel {
                thread: (k - 1) as usize,
                replies: Seq::empty(),
                millis: (240_000 + ((k - 1) % 3) * 20_000) as u64,
            },
        )
    } else {
        under_way(threads, k - 1)
    }
}

impl Shell {
    pub fn new() -> (r: Self)
        ensures
            r.deep_view() == ShellModel::opened(),
            r.deep_view().well_formed(),
    {
        let mut shell = Self::blank();

        let comments = seed::comments();
        let ghost all = comments.deep_view();
        let mut i: usize = 0;
        while i < comments.len()
            invariant
                all == comments.deep_view(),
                all == seed::every_comment(),
                all.len() == 3,
                i <= comments.len(),
                shell.deep_view() == ShellModel::blank().all_seeded(all, i as int),
                shell.deep_view().well_formed(),
                shell.next_id <= i,
            decreases comments.len() - i,
        {
            assert(all[i as int] == comments@[i as int].deep_view());
            shell.add_seeded(&comments[i]);
            i += 1;
        }

        // The comparison the workspace can do that no single agent can: two
        // live threads declared different approaches to one problem. The agent
        // says so in its own thread, using the same card a teammate would.
        let divergences = seed::divergences();
        let ghost seeded = shell.deep_view();
        let ghost ds = divergences.deep_view();
        let mut d: usize = 0;
        while d < divergences.len()
            invariant
                ds == divergences.deep_view(),
                ds == seed::every_divergence(),
                ds.len() == 1,
                d <= divergences.len(),
                shell.deep_view() == seeded.all_flagged(ds, d as int),
                shell.deep_view().well_formed(),
                shell.next_id <= 3 + 2 * d,
            decreases divergences.len() - d,
        {
            let divergence = divergences[d];
            assert(ds[d as int] == divergence.deep_view());
            shell.flag(d, &divergence, divergence.a_thread);
            shell.flag(d, &divergence, divergence.b_thread);
            d += 1;
        }
        shell
    }

    /// The shell with nothing said in it yet.
    fn blank() -> (r: Self)
        ensures
            r.deep_view() == ShellModel::blank(),
            r.deep_view().well_formed(),
            r.next_id == 0,
    {
        let threads = fresh_threads();
        proof {
            lemma_every_project();
            lemma_fresh_of(seed::every_project());
        }
        let active = match find_thread(&threads, seed::LABELS) {
            Some(i) => i,
            None => 0,
        };
        let shell = Self {
            threads,
            active,
            target: None,
            composer: Composer::new(PLACEHOLDER),
            mention_sel: 0,
            picker_dismissed: false,
            forwarding: Forwarding::Idle,
            view: Pane::Thread,
            dismissed: Vec::new(),
            auto_scheduled: Vec::new(),
            put_back: Vec::new(),
            demo: Vec::new(),
            proactive: Proactive::Off,
            next_id: 0,
        };
        assert(shell.deep_view() =~= ShellModel::blank());
        shell
    }

    /// The turns that are under way. These stand in for other people's agents
    /// working: long enough to actually show someone, so that a forward sent
    /// into one can be watched queueing and then releasing without anybody
    /// pressing anything.
    pub fn turns_under_way(&self) -> (r: Vec<Turn>)
        ensures
            r.deep_view() == under_way(self.deep_view().threads, self.threads.len() as int),
    {
        let ghost all = self.threads.deep_view();
        let mut out: Vec<Turn> = Vec::new();
        let mut i: usize = 0;
        assert(out.deep_view() =~= under_way(all, 0));
        while i < self.threads.len()
            invariant
                all == self.threads.deep_view(),
                i <= self.threads.len(),
                out.deep_view() == under_way(all, i as int),
            decreases self.threads.len() - i,
        {
            assert(all[i as int] == self.threads@[i as int].deep_view());
            if self.threads[i].agent_busy {
                let ghost before = out.deep_view();
                let millis: u64 = 240_000 + ((i % 3) as u64) * 20_000;
                let turn = Turn { thread: i, replies: Vec::new(), millis };
                assert(turn.replies.deep_view() =~= Seq::<AgentReplyModel>::empty());
                out.push(turn);
                assert(out.deep_view() =~= before.push(turn.deep_view()));
            }
            i += 1;
        }
        out
    }

    /// Adds a comment that was already there.
    fn add_seeded(&mut self, seeded: &SeedComment)
        requires
            old(self).deep_view().well_formed(),
            old(self).next_id < u32::MAX,
            seed_anchor_valid(seeded.anchor),
            seeded.author < seed::everyone().len(),
        ensures
            final(self).deep_view() == old(self).deep_view().seeded(seeded.deep_view()),
            final(self).deep_view().well_formed(),
            final(self).next_id <= old(self).next_id + 1,
    {
        let ghost m = self.deep_view();
        let index = match find_thread(&self.threads, seeded.thread) {
            Some(index) => index,
            None => {
                return;
            },
        };
        assert(m.threads[index as int] == self.threads@[index as int].deep_view());
        let anchor = anchor_seeded(&self.threads[index], seeded.anchor);
        let resolved = threads::resolve_in(&self.threads[index], &anchor);
        let handle = threads::comment_handle(&self.threads[index]);
        let comment = UiComment {
            id: self.next_id + 1,
            handle,
            anchor,
            resolved,
            body: seeded.body.to_owned(),
            author: seeded.author,
            mentions: words::parse_mentions(seeded.body),
            origin: Provenance::Local,
            delivery: threads::arrival_delivery(seeded.author, self.threads[index].agent_busy),
            divergence: None,
            about: None,
            replies: Vec::new(),
        };
        assert(comment.replies.deep_view() =~= Seq::<CommentReplyModel>::empty());
        let ghost c = comment.deep_view();
        proof {
            sweep::lemma_mentions_fit(seeded.body@);
            state::lemma_with_comment(m, index as int, c);
        }
        self.add_comment(index, comment);
        assert(self.deep_view() =~= m.seeded(seeded.deep_view()));
    }

    /// Flags a divergence in the thread with that title.
    fn flag(&mut self, d: usize, divergence: &SeedDivergence, title: &'static str)
        requires
            old(self).deep_view().well_formed(),
            old(self).next_id < u32::MAX,
            divergence.owner < seed::everyone().len(),
            divergence.a_block < u32::MAX,
            divergence.b_block < u32::MAX,
        ensures
            final(self).deep_view() == old(self).deep_view().flagged(
                d as int,
                divergence.deep_view(),
                title@,
            ),
            final(self).deep_view().well_formed(),
            final(self).next_id <= old(self).next_id + 1,
    {
        let ghost m = self.deep_view();
        let index = match find_thread(&self.threads, title) {
            Some(index) => index,
            None => {
                return;
            },
        };
        let (mine, theirs, other) = match divergence.sides(title) {
            Some(sides) => sides,
            None => {
                return;
            },
        };
        let block = match divergence.block_for(title) {
            Some(block) => block,
            None => {
                return;
            },
        };
        assert(m.threads[index as int] == self.threads@[index as int].deep_view());
        let anchor = anchor_seeded(&self.threads[index], SeedAnchor::Prose(block));
        let resolved = threads::resolve_in(&self.threads[index], &anchor);
        let handle = threads::comment_handle(&self.threads[index]);
        let body = write_flag(
            seed::actor(divergence.owner).handle,
            divergence.subject,
            mine,
            other,
            theirs,
        );
        let mentions = words::parse_mentions(body.as_str());
        let agent = seed::agent_in(&seed::actors());
        proof {
            lists::lemma_position(
                seed::everyone(),
                |a: seed::SeedActorModel| a.agent,
            );
        }
        let comment = UiComment {
            id: self.next_id + 1,
            handle,
            anchor,
            resolved,
            body,
            // Nominally the thread's agent, but never rendered as a name -- the
            // `design divergence` badge is the attribution.
            author: agent,
            mentions,
            origin: Provenance::Local,
            delivery: Delivery::Withheld,
            divergence: Some(d),
            about: None,
            replies: Vec::new(),
        };
        assert(comment.replies.deep_view() =~= Seq::<CommentReplyModel>::empty());
        let ghost c = comment.deep_view();
        proof {
            sweep::lemma_mentions_fit(c.body);
            state::lemma_with_comment(m, index as int, c);
        }
        self.add_comment(index, comment);
        assert(self.deep_view() =~= m.flagged(d as int, divergence.deep_view(), title@));
    }
}

} // verus!
