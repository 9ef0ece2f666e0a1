//! What the three panes show.

use vstd::prelude::*;

use crate::lists;
use crate::model::comment::Delivery;
use crate::seed;
use crate::seed::SeedProjectModel;
use crate::shell::cards;
use crate::shell::pane_laws;
use crate::shell::signals;
use crate::shell::signals::ObservationModel;
use crate::shell::state::{Proactive, Shell, ShellModel};
use crate::shell::threads;
use crate::shell::threads::{
    MentionTarget, Provenance, Target, ThreadUi, ThreadUiModel, UiComment, UiCommentModel,
};
use crate::shell::words;
use crate::text;

verus! {

// ---------------------------------------------------------------- mentions --

/// A comment that names whoever is at the window, and is shown.
pub open spec fn names_me(mode: Proactive, c: UiCommentModel) -> bool {
    cards::visible_in(mode, c) && c.mentions.contains(seed::ME)
}

/// Those of the first `k` comments of thread `i` that name me.
pub open spec fn mentions_in(
    mode: Proactive,
    i: usize,
    comments: Seq<UiCommentModel>,
    k: int,
) -> Seq<(usize, UiCommentModel)>
    decreases k,
{
    if k <= 0 {
        Seq::empty()
    } else if names_me(mode, comments[k - 1]) {
        mentions_in(mode, i, comments, k - 1).push((i, comments[k - 1]))
    } else {
        mentions_in(mode, i, comments, k - 1)
    }
}

/// The comments of the first `n` threads that name me, with their threads.
pub open spec fn mentions_of_me(
    mode: Proactive,
    threads: Seq<ThreadUiModel>,
    n: int,
) -> Seq<(usize, UiCommentModel)>
    decreases n,
{
    if n <= 0 {
        Seq::empty()
    } else {
        mentions_of_me(mode, threads, n - 1) + mentions_in(
            mode,
            (n - 1) as usize,
            threads[n - 1].comments,
            threads[n - 1].comments.len() as int,
        )
    }
}

proof fn lemma_mentions_in(mode: Proactive, i: usize, comments: Seq<UiCommentModel>, n: int)
    requires
        0 <= n <= comments.len(),
    ensures
        forall|e: (usize, UiCommentModel)| #[trigger]
            mentions_in(mode, i, comments, n).contains(e) <==> e.0 == i && names_me(mode, e.1)
                && comments.take(n).contains(e.1),
    decreases n,
{
    let all = mentions_in(mode, i, comments, n);
    let had = comments.take(n);
    if n > 0 {
        lemma_mentions_in(mode, i, comments, n - 1);
        let before = mentions_in(mode, i, comments, n - 1);
        let rest = comments.take(n - 1);
        assert forall|e: (usize, UiCommentModel)| #[trigger] all.contains(e) <==> e.0 == i
            && names_me(mode, e.1) && had.contains(e.1) by {
            if all.contains(e) {
                let j = choose|j: int| 0 <= j < all.len() && all[j] == e;
                if j < before.len() {
                    assert(before[j] == e);
                    assert(before.contains(e));
                    let k = choose|k: int| 0 <= k < rest.len() && rest[k] == e.1;
                    assert(had[k] == e.1);
                } else {
                    assert(had[n - 1] == e.1);
                }
            }
            if e.0 == i && names_me(mode, e.1) && had.contains(e.1) {
                let k = choose|k: int| 0 <= k < had.len() && had[k] == e.1;
                if k < n - 1 {
                    assert(rest[k] == e.1);
                    assert(rest.contains(e.1));
                    assert(before.contains(e));
                    let j = choose|j: int| 0 <= j < before.len() && before[j] == e;
                    assert(all[j] == e);
                } else {
                    assert(all[all.len() - 1] == e);
                }
            }
        }
    }
}

/// Every comment anywhere that names you is in your inbox, and nothing else is:
/// you find the note without knowing which thread it landed in.
pub proof fn the_inbox_is_complete(
    mode: Proactive,
    threads: Seq<ThreadUiModel>,
    n: int,
    i: usize,
    c: UiCommentModel,
)
    requires
        0 <= n <= threads.len() <= usize::MAX,
    ensures
        mentions_of_me(mode, threads, n).contains((i, c)) <==> {
            &&& i < n
            &&& threads[i as int].comments.contains(c)
            &&& cards::visible_in(mode, c)
            &&& c.mentions.contains(seed::ME)
        },
    decreases n,
{
    if n > 0 {
        the_inbox_is_complete(mode, threads, n - 1, i, c);
        let before = mentions_of_me(mode, threads, n - 1);
        let comments = threads[n - 1].comments;
        let last = mentions_in(mode, (n - 1) as usize, comments, comments.len() as int);
        lemma_mentions_in(mode, (n - 1) as usize, comments, comments.len() as int);
        assert(comments.take(comments.len() as int) =~= comments);
        let all = mentions_of_me(mode, threads, n);
        if all.contains((i, c)) {
            let j = choose|j: int| 0 <= j < all.len() && all[j] == (i, c);
            if j < before.len() {
                assert(before[j] == (i, c));
                assert(before.contains((i, c)));
            } else {
                assert(last[j - before.len()] == (i, c));
                assert(last.contains((i, c)));
            }
        }
        if before.contains((i, c)) {
            let j = choose|j: int| 0 <= j < before.len() && before[j] == (i, c);
            assert(all[j] == (i, c));
        }
        if last.contains((i, c)) {
            let j = choose|j: int| 0 <= j < last.len() && last[j] == (i, c);
            assert(all[j + before.len()] == (i, c));
        }
    }
}

impl Shell {
    /// Every comment anywhere that names you. A mention is only routing if it
    /// is reachable from outside the thread it was written in.
    pub fn my_mentions(&self) -> (r: Vec<(usize, &UiComment)>)
        ensures
            r.deep_view() == mentions_of_me(
                self.deep_view().proactive,
                self.deep_view().threads,
                self.threads.len() as int,
            ),
    {
        let ghost mode = self.proactive;
        let ghost all = self.threads.deep_view();
        let mut out: Vec<(usize, &UiComment)> = Vec::new();
        let mut i: usize = 0;
        assert(out.deep_view() =~= mentions_of_me(mode, all, 0));
        while i < self.threads.len()
            invariant
                mode == self.proactive,
                all == self.threads.deep_view(),
                i <= self.threads.len(),
                out.deep_view() == mentions_of_me(mode, all, i as int),
            decreases self.threads.len() - i,
        {
            assert(all[i as int] == self.threads@[i as int].deep_view());
            let ghost before = out.deep_view();
            let ghost comments = all[i as int].comments;
            let n = self.threads[i].comments.len();
            let mut k: usize = 0;
            assert(out.deep_view() =~= before + mentions_in(mode, i, comments, 0));
            while k < n
                invariant
                    mode == self.proactive,
                    i < self.threads.len(),
                    comments == self.threads@[i as int].comments.deep_view(),
                    n == comments.len(),
                    k <= n,
                    out.deep_view() == before + mentions_in(mode, i, comments, k as int),
                decreases n - k,
            {
                let comment = &self.threads[i].comments[k];
                assert(comments[k as int] == comment.deep_view());
                if self.visible(comment) && words::holds(&comment.mentions, seed::ME) {
                    let ghost so_far = out.deep_view();
                    out.push((i, comment));
                    assert(out.deep_view() =~= so_far.push((i, comments[k as int])));
                    assert(out.deep_view() =~= before + mentions_in(mode, i, comments, k + 1));
                }
                k += 1;
            }
            i += 1;
        }
        out
    }

    /// Where a mention of you is, in words.
    pub fn place_in(&self, thread: usize, comment: &UiComment) -> (r: String)
        requires
            thread < self.threads.len(),
        ensures
            ({
                let t = self.deep_view().threads[thread as int];
                r@ == threads::place_of(
                    comment.deep_view(),
                    t.diff_path(),
                    t.seed.diff_file,
                    t.seed.diff_lines,
                )
            }),
    {
        let t = &self.threads[thread];
        assert(self.deep_view().threads[thread as int] == t.deep_view());
        let path = t.diff_path();
        threads::describe_where(comment, path.as_str(), t.seed.diff_file, &t.seed.diff_lines)
    }
}

// ----------------------------------------------------------------- sidebar --

/// A row of the sidebar.
#[derive(Clone, Copy, Debug)]
pub enum SidebarRow {
    /// Projects are listed even when empty.
    Project(&'static str),
    Thread {
        index: usize,
        active: bool,
        dot: u32,
        /// How many comments it shows.
        count: usize,
        mentions_me: bool,
        unread: bool,
    },
}

#[verifier::ext_equal]
pub ghost enum SidebarRowModel {
    Project(Seq<char>),
    Thread {
        index: usize,
        active: bool,
        dot: u32,
        count: usize,
        mentions_me: bool,
        unread: bool,
    },
}

impl DeepView for SidebarRow {
    type V = SidebarRowModel;

    open spec fn deep_view(&self) -> SidebarRowModel {
        match self {
            SidebarRow::Project(name) => SidebarRowModel::Project(name@),
            SidebarRow::Thread { index, active, dot, count, mentions_me, unread } =>
            SidebarRowModel::Thread {
                index: *index,
                active: *active,
                dot: *dot,
                count: *count,
                mentions_me: *mentions_me,
                unread: *unread,
            },
        }
    }
}

/// How many of the comments are shown.
pub open spec fn shown_count(mode: Proactive, comments: Seq<UiCommentModel>) -> nat {
    lists::kept(comments, |c: UiCommentModel| cards::visible_in(mode, c)).len()
}

/// Whether one of the comments that are shown names me.
pub open spec fn any_names_me(mode: Proactive, comments: Seq<UiCommentModel>) -> bool {
    exists|k: int| 0 <= k < comments.len() && names_me(mode, #[trigger] comments[k])
}

impl ShellModel {
    /// The row of thread `i`.
    pub open spec fn thread_row(self, i: int) -> SidebarRowModel {
        let thread = self.threads[i];
        SidebarRowModel::Thread {
            index: i as usize,
            active: i == self.active,
            dot: threads::dot_of(thread.agent_busy, thread.seed.status),
            count: shown_count(self.proactive, thread.comments) as usize,
            mentions_me: any_names_me(self.proactive, thread.comments),
            unread: thread.unread,
        }
    }

    /// The rows of those of the first `n` threads that are in a project.
    pub open spec fn rows_in(self, project: Seq<char>, n: int) -> Seq<SidebarRowModel>
        decreases n,
    {
        if n <= 0 {
            Seq::empty()
        } else if self.threads[n - 1].project == project {
            self.rows_in(project, n - 1).push(self.thread_row(n - 1))
        } else {
            self.rows_in(project, n - 1)
        }
    }

    /// The rows of the first `g` projects, each with its threads.
    pub open spec fn sidebar(self, projects: Seq<SeedProjectModel>, g: int) -> Seq<
        SidebarRowModel,
    >
        decreases g,
    {
        if g <= 0 {
            Seq::empty()
        } else {
            self.sidebar(projects, g - 1).push(SidebarRowModel::Project(projects[g - 1].name))
                + self.rows_in(projects[g - 1].name, self.threads.len() as int)
        }
    }
}

impl Shell {
    /// How many of a thread's comments are shown, and whether one of those names
    /// you.
    fn tally(&self, thread: &ThreadUi) -> (r: (usize, bool))
        ensures
            r.0 == shown_count(self.deep_view().proactive, thread.deep_view().comments),
            r.1 == any_names_me(self.deep_view().proactive, thread.deep_view().comments),
    {
        let ghost mode = self.proactive;
        let ghost all = thread.comments.deep_view();
        let ghost p = |c: UiCommentModel| cards::visible_in(mode, c);
        let mut count: usize = 0;
        let mut mentions_me = false;
        let mut k: usize = 0;
        while k < thread.comments.len()
            invariant
                mode == self.proactive,
                all == thread.comments.deep_view(),
                p == (|c: UiCommentModel| cards::visible_in(mode, c)),
                k <= thread.comments.len(),
                count <= k,
                count == lists::kept(all.take(k as int), p).len(),
                mentions_me == (exists|j: int|
                    0 <= j < k && names_me(mode, #[trigger] all[j])),
            decreases thread.comments.len() - k,
        {
            assert(all.take(k + 1).drop_last() =~= all.take(k as int));
            let comment = &thread.comments[k];
            assert(all[k as int] == comment.deep_view());
            if self.visible(comment) {
                count += 1;
                if words::holds(&comment.mentions, seed::ME) {
                    assert(names_me(mode, all[k as int]));
                    mentions_me = true;
                }
            }
            k += 1;
        }
        assert(all.take(all.len() as int) =~= all);
        (count, mentions_me)
    }

    /// The sidebar: every project, with its threads.
    pub fn sidebar(&self) -> (r: Vec<SidebarRow>)
        ensures
            r.deep_view() == self.deep_view().sidebar(
                seed::every_project(),
                seed::every_project().len() as int,
            ),
    {
        let ghost m = self.deep_view();
        let projects = seed::projects();
        let ghost ps = projects.deep_view();
        let mut out: Vec<SidebarRow> = Vec::new();
        let mut g: usize = 0;
        assert(out.deep_view() =~= m.sidebar(ps, 0));
        while g < projects.len()
            invariant
                m == self.deep_view(),
                ps == projects.deep_view(),
                g <= projects.len(),
                out.deep_view() == m.sidebar(ps, g as int),
            decreases projects.len() - g,
        {
            let name = projects[g].name;
            assert(ps[g as int] == projects@[g as int].deep_view());
            let ghost before = out.deep_view();
            out.push(SidebarRow::Project(name));
            let ghost headed = before.push(SidebarRowModel::Project(name@));
            assert(out.deep_view() =~= headed);
            let mut i: usize = 0;
            assert(out.deep_view() =~= headed + m.rows_in(name@, 0));
            while i < self.threads.len()
                invariant
                    m == self.deep_view(),
                    i <= self.threads.len(),
                    out.deep_view() == headed + m.rows_in(name@, i as int),
                decreases self.threads.len() - i,
            {
                let thread = &self.threads[i];
                assert(m.threads[i as int] == thread.deep_view());
                if text::same_text(thread.project, name) {
                    let (count, mentions_me) = self.tally(thread);
                    let row = SidebarRow::Thread {
                        index: i,
                        active: i == self.active,
                        dot: threads::dot_color(thread),
                        count,
                        mentions_me,
                        unread: thread.unread,
                    };
                    let ghost so_far = out.deep_view();
                    out.push(row);
                    assert(out.deep_view() =~= so_far.push(m.thread_row(i as int)));
                    assert(out.deep_view() =~= headed + m.rows_in(name@, i + 1));
                }
                i += 1;
            }
            g += 1;
        }
        out
    }
}

// ------------------------------------------------------------------- board --

/// An entry of the board: a file, and whether each agent in it has been told.
#[derive(Debug)]
pub struct BoardEntry {
    pub file: String,
    /// `(thread, told)`
    pub rows: Vec<(usize, bool)>,
}

#[verifier::ext_equal]
pub ghost struct BoardEntryModel {
    pub file: Seq<char>,
    pub rows: Seq<(usize, bool)>,
}

impl DeepView for BoardEntry {
    type V = BoardEntryModel;

    open spec fn deep_view(&self) -> BoardEntryModel {
        BoardEntryModel { file: self.file@, rows: self.rows@ }
    }
}

/// Whether a thread's agent has the finding about `file`. *Why* it does not -- a
/// person has not looked, or the model chose to hold it -- is not the board's
/// business, and saying so would imply a decision.
pub open spec fn told_of(thread: ThreadUiModel, file: Seq<char>) -> bool {
    exists|k: int|
        0 <= k < thread.comments.len() && (#[trigger] thread.comments[k]).is_about(file)
            && !cards::untold(thread.comments[k].delivery)
}

impl ShellModel {
    /// The entry for an observation.
    pub open spec fn entry(self, o: ObservationModel) -> BoardEntryModel {
        BoardEntryModel {
            file: text::after_last(o.file, '/'),
            rows: Seq::new(
                o.threads.len(),
                |k: int| (o.threads[k], told_of(self.threads[o.threads[k] as int], o.file)),
            ),
        }
    }

    /// The board, while the workspace is noticing things.
    pub open spec fn board(self) -> Option<Seq<BoardEntryModel>> {
        if self.proactive == Proactive::Off {
            None
        } else {
            let found = signals::observed(self.threads);
            Some(Seq::new(found.len(), |g: int| self.entry(found[g])))
        }
    }
}

/// Whether a thread's agent has the finding about `file`.
pub fn is_told_of(thread: &ThreadUi, file: &str) -> (r: bool)
    ensures
        r == told_of(thread.deep_view(), file@),
{
    let ghost all = thread.comments.deep_view();
    let mut k: usize = 0;
    while k < thread.comments.len()
        invariant
            all == thread.comments.deep_view(),
            k <= thread.comments.len(),
            forall|j: int|
                0 <= j < k ==> !((#[trigger] all[j]).is_about(file@) && !cards::untold(
                    all[j].delivery,
                )),
        decreases thread.comments.len() - k,
    {
        let comment = &thread.comments[k];
        assert(all[k as int] == comment.deep_view());
        let about = match &comment.about {
            Some(about) => text::same_text(about.as_str(), file),
            None => false,
        };
        if about && !cards::is_untold(comment.delivery) {
            assert(thread.deep_view().comments[k as int] == comment.deep_view());
            return true;
        }
        k += 1;
    }
    false
}

impl Shell {
    /// The board, while the workspace is noticing things. Above the threads, not
    /// inside any of them, visible to everyone -- so a cross-thread finding has
    /// somewhere to live that is not somebody's inbox.
    pub fn board(&self) -> (r: Option<Vec<BoardEntry>>)
        requires
            self.deep_view().well_formed(),
        ensures
            match r {
                Some(entries) => self.deep_view().board() == Some(entries.deep_view()),
                None => self.deep_view().board() is None,
            },
    {
        if !self.proactive.on() {
            return None;
        }
        let ghost m = self.deep_view();
        let found = self.observations();
        let ghost obs = found.deep_view();
        let ghost entries = Seq::new(obs.len(), |g: int| m.entry(obs[g]));
        let mut out: Vec<BoardEntry> = Vec::new();
        let mut g: usize = 0;
        while g < found.len()
            invariant
                m == self.deep_view(),
                m.well_formed(),
                obs == found.deep_view(),
                obs == signals::observed(m.threads),
                entries == Seq::new(obs.len(), |g: int| m.entry(obs[g])),
                g <= found.len(),
                out.deep_view() == entries.take(g as int),
            decreases found.len() - g,
        {
            let ghost o = obs[g as int];
            assert(o == found@[g as int].deep_view());
            let mut rows: Vec<(usize, bool)> = Vec::new();
            let mut k: usize = 0;
            while k < found[g].threads.len()
                invariant
                    m == self.deep_view(),
                    m.well_formed(),
                    obs == found.deep_view(),
                    obs == signals::observed(m.threads),
                    g < found.len(),
                    o == obs[g as int],
                    o == found@[g as int].deep_view(),
                    k <= o.threads.len(),
                    rows@ == m.entry(o).rows.take(k as int),
                decreases o.threads.len() - k,
            {
                proof {
                    signals::lemma_observed_exist(m.threads, g as int, k as int);
                }
                let target = found[g].threads[k];
                assert(m.threads[target as int] == self.threads@[target as int].deep_view());
                let told = is_told_of(&self.threads[target], found[g].file.as_str());
                rows.push((target, told));
                k += 1;
                assert(rows@ =~= m.entry(o).rows.take(k as int));
            }
            assert(rows@ =~= m.entry(o).rows);
            let ghost before = out.deep_view();
            let entry = BoardEntry {
                file: text::rest_after_last(found[g].file.as_str(), '/'),
                rows,
            };
            out.push(entry);
            assert(out.deep_view() =~= before.push(m.entry(o)));
            g += 1;
            assert(out.deep_view() =~= entries.take(g as int));
        }
        assert(out.deep_view() =~= entries);
        Some(out)
    }
}

// ------------------------------------------------------------ conversation --

/// An item of the conversation pane, from top to bottom.
#[derive(Clone, Copy, Debug, PartialEq, Eq, Structural)]
pub enum Item {
    /// Which thread this one was branched from.
    Branched,
    NoTranscript,
    Block {
        index: usize,
        /// The span carries a comment.
        commented: bool,
        composing: bool,
    },
    Composer,
    /// Index into the thread's comments.
    Card(usize),
    /// Index into the agent's replies.
    Reply(usize),
    Receipts,
}

/// The cards of those of the first `k` comments for which `p` holds.
pub open spec fn cards_where(
    comments: Seq<UiCommentModel>,
    p: spec_fn(UiCommentModel) -> bool,
    k: int,
) -> Seq<Item>
    decreases k,
{
    if k <= 0 {
        Seq::empty()
    } else if p(comments[k - 1]) {
        cards_where(comments, p, k - 1).push(Item::Card((k - 1) as usize))
    } else {
        cards_where(comments, p, k - 1)
    }
}

/// A comment on line `i` of the document at `path`, and shown.
pub open spec fn on_line(mode: Proactive, path: Seq<char>, i: usize, c: UiCommentModel) -> bool {
    cards::visible_in(mode, c) && c.anchor.file == path && threads::covered(c.resolved, i)
}

impl ShellModel {
    /// The cards of the current thread for which `p` holds.
    pub open spec fn cards(self, p: spec_fn(UiCommentModel) -> bool) -> Seq<Item> {
        cards_where(self.current().comments, p, self.current().comments.len() as int)
    }

    /// The cards on line `i` of the document at `path`.
    pub open spec fn cards_on(self, path: Seq<char>, i: usize) -> Seq<Item> {
        self.cards(|c: UiCommentModel| on_line(self.proactive, path, i, c))
    }

    /// Block `i` of the transcript, the composer if it is pointed there, and the
    /// cards on it.
    pub open spec fn block_items(self, i: usize) -> Seq<Item> {
        let composing = self.target == Some(Target::Prose(i));
        let on_it = self.cards_on(self.current().prose_path(), i);
        seq![Item::Block { index: i, commented: on_it.len() > 0, composing }] + (if composing {
            seq![Item::Composer]
        } else {
            Seq::empty()
        }) + on_it
    }

    /// The first `n` blocks of the transcript.
    pub open spec fn transcript(self, n: int) -> Seq<Item>
        decreases n,
    {
        if n <= 0 {
            Seq::empty()
        } else {
            self.transcript(n - 1) + self.block_items((n - 1) as usize)
        }
    }

    /// A comment on the diff of the current thread, and shown.
    pub open spec fn on_diff(self, c: UiCommentModel) -> bool {
        cards::visible_in(self.proactive, c) && c.anchor.file == self.current().diff_path() && !(
        c.resolved is Orphaned)
    }

    /// An orphan, and shown.
    pub open spec fn astray(self, c: UiCommentModel) -> bool {
        cards::visible_in(self.proactive, c) && c.resolved is Orphaned
    }

    /// The conversation pane of the current thread.
    pub open spec fn conversation(self) -> Seq<Item> {
        let thread = self.current();
        (if thread.seed.branched_from is Some {
            seq![Item::Branched]
        } else {
            Seq::empty()
        }) + (if thread.seed.blocks.len() == 0 {
            seq![Item::NoTranscript]
        } else {
            Seq::empty()
        }) + self.transcript(thread.seed.blocks.len() as int) + self.cards(
            |c: UiCommentModel| self.on_diff(c),
        ) + self.cards(|c: UiCommentModel| self.astray(c)) + Seq::new(
            thread.replies.len(),
            |k: int| Item::Reply(k as usize),
        ) + (if thread.sent.len() > 0 {
            seq![Item::Receipts]
        } else {
            Seq::empty()
        })
    }
}

/// Every orphan that is shown has a card: never guessed at, never dropped.
pub proof fn orphans_are_never_dropped(m: ShellModel, k: usize)
    requires
        k < m.current().comments.len(),
        m.current().comments[k as int].resolved is Orphaned,
        cards::visible_in(m.proactive, m.current().comments[k as int]),
    ensures
        m.conversation().contains(Item::Card(k)),
{
    let p = |c: UiCommentModel| m.astray(c);
    let comments = m.current().comments;
    let orphans = m.cards(p);
    lemma_card_listed(comments, p, comments.len() as int, k);
    let j = choose|j: int| 0 <= j < orphans.len() && orphans[j] == Item::Card(k);
    let thread = m.current();
    let head = (if thread.seed.branched_from is Some {
        seq![Item::Branched]
    } else {
        Seq::empty()
    }) + (if thread.seed.blocks.len() == 0 {
        seq![Item::NoTranscript]
    } else {
        Seq::empty()
    }) + m.transcript(thread.seed.blocks.len() as int) + m.cards(
        |c: UiCommentModel| m.on_diff(c),
    );
    assert(m.conversation()[head.len() + j] == Item::Card(k));
}

proof fn lemma_card_listed(
    comments: Seq<UiCommentModel>,
    p: spec_fn(UiCommentModel) -> bool,
    n: int,
    k: usize,
)
    requires
        k < n <= comments.len(),
        p(comments[k as int]),
    ensures
        cards_where(comments, p, n).contains(Item::Card(k)),
    decreases n,
{
    let all = cards_where(comments, p, n);
    if k == n - 1 {
        assert(all[all.len() - 1] == Item::Card(k));
    } else {
        lemma_card_listed(comments, p, n - 1, k);
        let before = cards_where(comments, p, n - 1);
        let j = choose|j: int| 0 <= j < before.len() && before[j] == Item::Card(k);
        assert(all[j] == Item::Card(k));
    }
}

impl Shell {
    /// The cards on line `i` of the document at `path`.
    fn list_on_line(&self, path: &str, i: usize) -> (r: Vec<Item>)
        requires
            self.deep_view().well_formed(),
        ensures
            r@ == self.deep_view().cards_on(path@, i),
    {
        let ghost m = self.deep_view();
        let ghost p = |c: UiCommentModel| on_line(m.proactive, path@, i, c);
        let thread = &self.threads[self.active];
        let ghost all = m.current().comments;
        assert(m.current() == thread.deep_view());
        let mut out: Vec<Item> = Vec::new();
        let mut k: usize = 0;
        while k < thread.comments.len()
            invariant
                m == self.deep_view(),
                p == (|c: UiCommentModel| on_line(m.proactive, path@, i, c)),
                all == thread.comments.deep_view(),
                k <= thread.comments.len(),
                out@ == cards_where(all, p, k as int),
            decreases thread.comments.len() - k,
        {
            let comment = &thread.comments[k];
            assert(all[k as int] == comment.deep_view());
            if self.visible(comment) && text::same_text(comment.anchor.file.as_str(), path)
                && threads::covers(&comment.resolved, i) {
                out.push(Item::Card(k));
            }
            k += 1;
        }
        out
    }

    /// The cards of comments on the diff.
    fn list_on_diff(&self) -> (r: Vec<Item>)
        requires
            self.deep_view().well_formed(),
        ensures
            r@ == self.deep_view().cards(|c: UiCommentModel| self.deep_view().on_diff(c)),
    {
        let ghost m = self.deep_view();
        let ghost p = |c: UiCommentModel| m.on_diff(c);
        let thread = &self.threads[self.active];
        let ghost all = m.current().comments;
        assert(m.current() == thread.deep_view());
        let path = thread.diff_path();
        let mut out: Vec<Item> = Vec::new();
        let mut k: usize = 0;
        while k < thread.comments.len()
            invariant
                m == self.deep_view(),
                p == (|c: UiCommentModel| m.on_diff(c)),
                path@ == m.current().diff_path(),
                all == thread.comments.deep_view(),
                k <= thread.comments.len(),
                out@ == cards_where(all, p, k as int),
            decreases thread.comments.len() - k,
        {
            let comment = &thread.comments[k];
            assert(all[k as int] == comment.deep_view());
            if self.visible(comment) && text::same_text(
                comment.anchor.file.as_str(),
                path.as_str(),
            ) && !comment.resolved.is_orphaned() {
                out.push(Item::Card(k));
            }
            k += 1;
        }
        out
    }

    /// The cards of orphans.
    fn list_orphans(&self) -> (r: Vec<Item>)
        requires
            self.deep_view().well_formed(),
        ensures
            r@ == self.deep_view().cards(|c: UiCommentModel| self.deep_view().astray(c)),
    {
        let ghost m = self.deep_view();
        let ghost p = |c: UiCommentModel| m.astray(c);
        let thread = &self.threads[self.active];
        let ghost all = m.current().comments;
        assert(m.current() == thread.deep_view());
        let mut out: Vec<Item> = Vec::new();
        let mut k: usize = 0;
        while k < thread.comments.len()
            invariant
                m == self.deep_view(),
                p == (|c: UiCommentModel| m.astray(c)),
                all == thread.comments.deep_view(),
                k <= thread.comments.len(),
                out@ == cards_where(all, p, k as int),
            decreases thread.comments.len() - k,
        {
            let comment = &thread.comments[k];
            assert(all[k as int] == comment.deep_view());
            if self.visible(comment) && comment.resolved.is_orphaned() {
                out.push(Item::Card(k));
            }
            k += 1;
        }
        out
    }

    /// The conversation pane of the current thread, from top to bottom.
    pub fn conversation(&self) -> (r: Vec<Item>)
        requires
            self.deep_view().well_formed(),
        ensures
            r@ == self.deep_view().conversation(),
            self.deep_view().current().seed.blocks.len() <= u32::MAX ==> exists|
                on_blocks: Seq<Seq<Item>>,
                on_diff: Seq<Item>,
                orphans: Seq<Item>,
            | #[trigger]
                pane_laws::reads(self.deep_view(), r@, on_blocks, on_diff, orphans),
    {
        let ghost m = self.deep_view();
        let thread = &self.threads[self.active];
        assert(m.current() == thread.deep_view());
        let mut out: Vec<Item> = Vec::new();
        if thread.seed.branched_from.is_some() {
            out.push(Item::Branched);
        }
        if thread.seed.blocks.len() == 0 {
            out.push(Item::NoTranscript);
        }
        let ghost head = out@;
        assert(head =~= (if m.current().seed.branched_from is Some {
            seq![Item::Branched]
        } else {
            Seq::empty()
        }) + (if m.current().seed.blocks.len() == 0 {
            seq![Item::NoTranscript]
        } else {
            Seq::empty()
        }));
        let path = thread.prose_path();
        let mut i: usize = 0;
        assert(out@ =~= head + m.transcript(0));
        while i < thread.seed.blocks.len()
            invariant
                m == self.deep_view(),
                m.well_formed(),
                m.current() == thread.deep_view(),
                path@ == m.current().prose_path(),
                i <= thread.seed.blocks.len(),
                out@ == head + m.transcript(i as int),
            decreases thread.seed.blocks.len() - i,
        {
            let composing = match self.target {
                Some(Target::Prose(at)) => at == i,
                _ => false,
            };
            // The wash marks "this span carries a comment", not "this span is
            // selected" -- so it has to outlive composition.
            let mut on_it = self.list_on_line(path.as_str(), i);
            let ghost listed = on_it@;
            out.push(Item::Block { index: i, commented: on_it.len() > 0, composing });
            if composing {
                out.push(Item::Composer);
            }
            out.append(&mut on_it);
            assert(out@ =~= head + m.transcript(i as int) + m.block_items(i));
            i += 1;
            assert(out@ =~= head + m.transcript(i as int));
        }
        let mut on_diff = self.list_on_diff();
        out.append(&mut on_diff);
        let mut orphans = self.list_orphans();
        out.append(&mut orphans);
        let ghost so_far = out@;
        let ghost replies = Seq::new(
            m.current().replies.len(),
            |k: int| Item::Reply(k as usize),
        );
        let mut k: usize = 0;
        assert(out@ =~= so_far + replies.take(0));
        while k < thread.replies.len()
            invariant
                m.current() == thread.deep_view(),
                replies == Seq::new(m.current().replies.len(), |k: int| Item::Reply(k as usize)),
                k <= thread.replies.len(),
                out@ == so_far + replies.take(k as int),
            decreases thread.replies.len() - k,
        {
            out.push(Item::Reply(k));
            k += 1;
            assert(out@ =~= so_far + replies.take(k as int));
        }
        assert(replies.take(replies.len() as int) =~= replies);
        if thread.sent.len() > 0 {
            out.push(Item::Receipts);
        }
        assert(out@ =~= m.conversation());
        proof {
            if m.current().seed.blocks.len() <= u32::MAX {
                pane_laws::the_conversation_reads_from_top_to_bottom(m);
            }
        }
        out
    }

    /// Which thread the current one was branched from.
    pub fn branch_line(&self) -> (r: Option<String>)
        requires
            self.deep_view().well_formed(),
        ensures
            r.deep_view() == (match self.deep_view().current().seed.branched_from {
                Some(parent) => Some(
                    "branched from \""@ + parent
                        + "\" - shares its transcript, so anchors carry across"@,
                ),
                None => None,
            }),
    {
        let thread = &self.threads[self.active];
        assert(self.deep_view().current() == thread.deep_view());
        match thread.seed.branched_from {
            Some(parent) => {
                let mut out = "branched from \"".to_owned();
                out.append(parent);
                out.append("\" - shares its transcript, so anchors carry across");
                Some(out)
            },
            None => None,
        }
    }
}

// ------------------------------------------------------------------ review --

/// How a line of the diff is painted.
#[derive(Clone, Copy, Debug, PartialEq, Eq, Structural)]
pub enum Tint {
    Composing,
    Commented,
    Added,
    Removed,
    Plain,
}

/// A line of the diff pane.
#[derive(Clone, Copy, Debug, PartialEq, Eq, Structural)]
pub struct DiffRow {
    pub index: usize,
    pub tint: Tint,
    /// The composer follows this line: it is inline where you highlighted
    /// rather than elsewhere on screen.
    pub composer: bool,
}

impl ShellModel {
    /// Line `i` of the diff pane.
    pub open spec fn diff_row(self, i: int) -> DiffRow {
        DiffRow {
            index: i as usize,
            tint: if self.target matches Some(Target::Diff(a, b)) && a <= i <= b {
                Tint::Composing
            } else if self.cards_on(self.current().diff_path(), i as usize).len() > 0 {
                Tint::Commented
            } else {
                match self.current().seed.diff_lines[i].1 {
                    Some(true) => Tint::Added,
                    Some(false) => Tint::Removed,
                    None => Tint::Plain,
                }
            },
            composer: self.target matches Some(Target::Diff(_, b)) && i == b,
        }
    }

    /// The diff pane of the current thread.
    pub open spec fn review(self) -> Seq<DiffRow> {
        Seq::new(self.current().seed.diff_lines.len(), |i: int| self.diff_row(i))
    }
}

impl Shell {
    /// The diff pane of the current thread.
    pub fn review(&self) -> (r: Vec<DiffRow>)
        requires
            self.deep_view().well_formed(),
        ensures
            r@ == self.deep_view().review(),
    {
        let ghost m = self.deep_view();
        let thread = &self.threads[self.active];
        assert(m.current() == thread.deep_view());
        let path = thread.diff_path();
        let mut out: Vec<DiffRow> = Vec::new();
        let mut i: usize = 0;
        while i < thread.seed.diff_lines.len()
            invariant
                m == self.deep_view(),
                m.well_formed(),
                m.current() == thread.deep_view(),
                path@ == m.current().diff_path(),
                i <= thread.seed.diff_lines.len(),
                out@ == m.review().take(i as int),
            decreases thread.seed.diff_lines.len() - i,
        {
            assert(m.current().seed.diff_lines[i as int].1
                == thread.seed.diff_lines@[i as int].1);
            let (composing, composer) = match self.target {
                Some(Target::Diff(a, b)) => (a <= i && i <= b, i == b),
                _ => (false, false),
            };
            let tint = if composing {
                Tint::Composing
            } else if self.list_on_line(path.as_str(), i).len() > 0 {
                Tint::Commented
            } else {
                match thread.seed.diff_lines[i].1 {
                    Some(true) => Tint::Added,
                    Some(false) => Tint::Removed,
                    None => Tint::Plain,
                }
            };
            out.push(DiffRow { index: i, tint, composer });
            assert(out@[i as int] == m.diff_row(i as int));
            i += 1;
            assert(out@ =~= m.review().take(i as int));
        }
        assert(out@ =~= m.review());
        out
    }
}

// ----------------------------------------------------------------- pickers --

/// A thread a snippet can go to.
#[derive(Clone, Copy, Debug, PartialEq, Eq, Structural)]
pub struct ForwardRow {
    pub index: usize,
    pub dot: u32,
    /// Same-file threads are where the anchor can actually re-resolve.
    pub same_file: bool,
}

impl ShellModel {
    /// Those of the first `n` threads a snippet can go to: every other one is a
    /// candidate; the anchor decides on arrival whether it lands or orphans.
    pub open spec fn destinations(self, n: int) -> Seq<ForwardRow>
        decreases n,
    {
        if n <= 0 {
            Seq::empty()
        } else if n - 1 == self.active {
            self.destinations(n - 1)
        } else {
            let thread = self.threads[n - 1];
            self.destinations(n - 1).push(
                ForwardRow {
                    index: (n - 1) as usize,
                    dot: threads::dot_of(thread.agent_busy, thread.seed.status),
                    same_file: thread.has_diff() && thread.seed.diff_file
                        == self.current().seed.diff_file,
                },
            )
        }
    }

    /// What the picker shows for a target: a dot, a name, a note.
    pub open spec fn candidate_row(self, target: MentionTarget) -> (u32, Seq<char>, Seq<char>) {
        match target {
            MentionTarget::Actor(i) => {
                let actor = seed::everyone()[i as int];
                (actor.color, "@"@ + actor.handle, actor.role)
            },
            MentionTarget::Thread(i) => {
                let thread = self.threads[i as int];
                (
                    if thread.agent_busy {
                        0x4A9E5C
                    } else {
                        0x555555
                    },
                    "@"@ + thread.seed.slug,
                    thread.seed.title,
                )
            },
        }
    }
}

impl Shell {
    /// Where a snippet can go.
    pub fn forward_rows(&self) -> (r: Vec<ForwardRow>)
        requires
            self.deep_view().well_formed(),
        ensures
            r@ == self.deep_view().destinations(self.threads.len() as int),
    {
        let ghost m = self.deep_view();
        assert(m.current() == self.threads@[self.active as int].deep_view());
        let mut out: Vec<ForwardRow> = Vec::new();
        let mut i: usize = 0;
        while i < self.threads.len()
            invariant
                m == self.deep_view(),
                m.well_formed(),
                m.current() == self.threads@[self.active as int].deep_view(),
                i <= self.threads.len(),
                out@ == m.destinations(i as int),
            decreases self.threads.len() - i,
        {
            let thread = &self.threads[i];
            assert(m.threads[i as int] == thread.deep_view());
            if i != self.active {
                let same_file = thread.has_diff() && text::same_text(
                    thread.seed.diff_file,
                    self.threads[self.active].seed.diff_file,
                );
                out.push(ForwardRow { index: i, dot: threads::dot_color(thread), same_file });
            }
            i += 1;
        }
        out
    }

    /// What the picker shows for a target: a dot, a name, a note.
    pub fn candidate_row(&self, target: MentionTarget) -> (r: (u32, String, &'static str))
        requires
            self.deep_view().addresses(target),
        ensures
            (r.0, r.1@, r.2@) == self.deep_view().candidate_row(target),
    {
        let mut name = "@".to_owned();
        match target {
            MentionTarget::Actor(i) => {
                let actor = seed::actor(i);
                name.append(actor.handle);
                (actor.color, name, actor.role)
            },
            MentionTarget::Thread(i) => {
                let thread = &self.threads[i];
                assert(self.deep_view().threads[i as int] == thread.deep_view());
                name.append(thread.seed.slug);
                let dot: u32 = if thread.agent_busy {
                    0x4A9E5C
                } else {
                    0x555555
                };
                (dot, name, thread.seed.title)
            },
        }
    }
}

// ---------------------------------------------------------------- turn bar --

/// What is waiting on the agent.
#[derive(Clone, Copy, Debug, PartialEq, Eq, Structural)]
pub struct TurnBar {
    pub busy: bool,
    /// How many forwarded comments wait.
    pub queued: usize,
}

/// A forwarded comment that waits, for the turn boundary or for a person.
pub open spec fn waits(c: UiCommentModel) -> bool {
    c.delivery == Delivery::Queued && c.origin is Forwarded
}

/// How many forwarded comments wait, in words.
pub open spec fn waiting_line(queued: nat) -> Seq<char> {
    text::decimal(queued) + " forwarded comment"@ + (if queued == 1 {
        ""@
    } else {
        "s"@
    }) + " waiting"@
}

impl TurnBar {
    /// The bar is there while there is something to say.
    pub fn shown(self) -> (r: bool)
        ensures
            r == (self.busy || self.queued > 0),
    {
        self.busy || self.queued > 0
    }

    pub fn headline(self) -> (r: &'static str)
        ensures
            r@ == (if self.busy {
                "agent is mid-turn"@
            } else {
                "waiting for the turn boundary"@
            }),
    {
        if self.busy {
            "agent is mid-turn"
        } else {
            "waiting for the turn boundary"
        }
    }

    /// How many forwarded comments wait, in words, if any do.
    pub fn waiting(self) -> (r: Option<String>)
        ensures
            r.deep_view() == (if self.queued > 0 {
                Some(waiting_line(self.queued as nat))
            } else {
                None
            }),
    {
        if self.queued > 0 {
            let mut out = text::write_decimal(self.queued as u128);
            out.append(" forwarded comment");
            out.append(
                if self.queued == 1 {
                    ""
                } else {
                    "s"
                },
            );
            out.append(" waiting");
            Some(out)
        } else {
            None
        }
    }
}

impl Shell {
    /// What is waiting on the agent. Visible so that "queued" is something the
    /// system tells you, not something you had to decide.
    pub fn turn_bar(&self) -> (r: TurnBar)
        requires
            self.deep_view().well_formed(),
        ensures
            r.busy == self.deep_view().current().agent_busy,
            r.queued == lists::kept(
                self.deep_view().current().comments,
                |c: UiCommentModel| waits(c),
            ).len(),
    {
        let ghost m = self.deep_view();
        let ghost p = |c: UiCommentModel| waits(c);
        let thread = &self.threads[self.active];
        assert(m.current() == thread.deep_view());
        let ghost all = m.current().comments;
        let mut queued: usize = 0;
        let mut k: usize = 0;
        while k < thread.comments.len()
            invariant
                all == thread.comments.deep_view(),
                p == (|c: UiCommentModel| waits(c)),
                k <= thread.comments.len(),
                queued <= k,
                queued == lists::kept(all.take(k as int), p).len(),
            decreases thread.comments.len() - k,
        {
            assert(all.take(k + 1).drop_last() =~= all.take(k as int));
            assert(all[k as int] == thread.comments@[k as int].deep_view());
            let forwarded = match thread.comments[k].origin {
                Provenance::Forwarded { .. } => true,
                Provenance::Local => false,
            };
            if thread.comments[k].delivery == Delivery::Queued && forwarded {
                queued += 1;
            }
            k += 1;
        }
        assert(all.take(all.len() as int) =~= all);
        TurnBar { busy: thread.agent_busy, queued }
    }

    /// Whether what the composer is pointed at can be handed to another thread.
    /// Replies have no span of their own, so there is nothing to forward.
    pub fn can_forward(&self) -> (r: bool)
        ensures
            r == !(self.deep_view().target matches Some(Target::Reply(_))),
    {
        match self.target {
            Some(Target::Reply(_)) => false,
            _ => true,
        }
    }
}

} // verus!
