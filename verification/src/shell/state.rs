//! What the shell holds, and what always holds of it.

use vstd::prelude::*;

use crate::composer::{Composer, ComposerModel};
use crate::model::comment::Delivery;
use crate::shell::signals;
use crate::shell::signals::Observation;
use crate::shell::threads::{
    AgentReply, AgentReplyModel, Target, ThreadUi, ThreadUiModel, UiComment, UiCommentModel,
};
use crate::text;

verus! {

/// What a pending forward is carrying.
#[derive(Clone, Copy, Debug, PartialEq, Eq, Structural)]
pub enum Forwarding {
    Idle,
    /// A committed comment, note and all.
    Comment(u32),
    /// The current selection on its own -- the code, with nothing said about it.
    Selection,
}

#[derive(Clone, Copy, Debug, PartialEq, Eq, Structural)]
pub enum Pane {
    Thread,
    /// Every comment across every thread that names you.
    Mentions,
    /// Workspace-wide observations. Above the threads, visible to everyone,
    /// read-mostly -- an announcement board rather than somebody's inbox.
    Channel,
}

/// How much the workspace is allowed to do on its own.
///
/// Who approves is not inherently a person -- it is a mode, the way a permission
/// setting is. `Manual` means a person decides whether their agent sees a
/// finding. `Auto` means a model makes that call and only holds the ones it is
/// unsure about.
#[derive(Clone, Copy, Debug, PartialEq, Eq, Structural)]
pub enum Proactive {
    Off,
    Manual,
    Auto,
}

impl Proactive {
    pub open spec fn spec_next(self) -> Proactive {
        match self {
            Proactive::Off => Proactive::Manual,
            Proactive::Manual => Proactive::Auto,
            Proactive::Auto => Proactive::Off,
        }
    }

    pub fn on(self) -> (r: bool)
        ensures
            r == (self != Proactive::Off),
    {
        self != Proactive::Off
    }

    pub fn next(self) -> (r: Self)
        ensures
            r == self.spec_next(),
    {
        match self {
            Proactive::Off => Proactive::Manual,
            Proactive::Manual => Proactive::Auto,
            Proactive::Auto => Proactive::Off,
        }
    }

    pub fn label(self) -> (r: &'static str)
        ensures
            r@ == (match self {
                Proactive::Off => "proactive: off"@,
                Proactive::Manual => "proactive: manual"@,
                Proactive::Auto => "proactive: auto"@,
            }),
    {
        match self {
            Proactive::Off => "proactive: off",
            Proactive::Manual => "proactive: manual",
            Proactive::Auto => "proactive: auto",
        }
    }
}

/// The modes come round: off, manual, auto, off.
pub proof fn three_steps_come_round(mode: Proactive)
    ensures
        mode.spec_next() != mode,
        mode.spec_next().spec_next() != mode,
        mode.spec_next().spec_next().spec_next() == mode,
        Proactive::Off.spec_next() == Proactive::Manual,
{
}

/// One beat of the scripted demo.
///
/// The app drives itself rather than being driven by synthetic keystrokes: a
/// composing input source turns every fake keypress into whatever it feels
/// like, and stealing focus mid-recording is rude besides. This types into the
/// composer directly, so what is recorded is the app, not the robot.
#[derive(Clone, Copy, Debug)]
pub enum Beat {
    Thread(&'static str),
    Mode(Proactive),
    Channel,
    /// Approve whatever the orchestrator raised in the current thread.
    ApproveProposal,
    Select(Target),
    Key(char),
    Commit,
    OpenForward,
    ForwardTo(&'static str),
    Pause,
}

#[verifier::ext_equal]
pub ghost enum BeatModel {
    Thread(Seq<char>),
    Mode(Proactive),
    Channel,
    ApproveProposal,
    Select(Target),
    /// One character, typed.
    Key(Seq<char>),
    Commit,
    OpenForward,
    ForwardTo(Seq<char>),
    Pause,
}

impl DeepView for Beat {
    type V = BeatModel;

    open spec fn deep_view(&self) -> BeatModel {
        match self {
            Beat::Thread(title) => BeatModel::Thread(title@),
            Beat::Mode(mode) => BeatModel::Mode(*mode),
            Beat::Channel => BeatModel::Channel,
            Beat::ApproveProposal => BeatModel::ApproveProposal,
            Beat::Select(target) => BeatModel::Select(*target),
            Beat::Key(c) => BeatModel::Key(seq![*c]),
            Beat::Commit => BeatModel::Commit,
            Beat::OpenForward => BeatModel::OpenForward,
            Beat::ForwardTo(title) => BeatModel::ForwardTo(title@),
            Beat::Pause => BeatModel::Pause,
        }
    }
}

/// A turn that was started. It ends on its own after `millis`, and the replies
/// land then.
#[derive(Debug)]
pub struct Turn {
    pub thread: usize,
    pub replies: Vec<AgentReply>,
    pub millis: u64,
}

#[verifier::ext_equal]
pub ghost struct TurnModel {
    pub thread: usize,
    pub replies: Seq<AgentReplyModel>,
    pub millis: u64,
}

impl DeepView for Turn {
    type V = TurnModel;

    open spec fn deep_view(&self) -> TurnModel {
        TurnModel {
            thread: self.thread,
            replies: self.replies.deep_view(),
            millis: self.millis,
        }
    }
}

/// A finding auto mode lets through to its thread's agent after `millis`.
#[derive(Debug)]
pub struct Release {
    pub thread: usize,
    pub file: String,
    pub millis: u64,
}

#[verifier::ext_equal]
pub ghost struct ReleaseModel {
    pub thread: usize,
    pub file: Seq<char>,
    pub millis: u64,
}

impl DeepView for Release {
    type V = ReleaseModel;

    open spec fn deep_view(&self) -> ReleaseModel {
        ReleaseModel { thread: self.thread, file: self.file@, millis: self.millis }
    }
}

pub struct Shell {
    pub threads: Vec<ThreadUi>,
    pub active: usize,
    pub target: Option<Target>,
    pub composer: Composer,
    /// Highlighted row in the `@` picker.
    pub mention_sel: usize,
    /// Escape closes the picker without cancelling the comment.
    pub picker_dismissed: bool,
    /// Which "send to thread" list is open. At most one, which is what keeps
    /// the row element ids unique per frame.
    pub forwarding: Forwarding,
    /// Whether the middle pane shows a thread or the mention inbox.
    pub view: Pane,
    /// Proposals that were turned down, so the sweep never re-raises them.
    pub dismissed: Vec<(usize, String)>,
    /// Auto releases already scheduled, so repeated sweeps do not stack timers.
    pub auto_scheduled: Vec<(usize, String)>,
    /// Comments somebody withheld and put back in the queue. That is a person
    /// letting them through, whoever sent them.
    pub put_back: Vec<u32>,
    /// Scripted demo, if one was asked for.
    pub demo: Vec<(u64, Beat)>,
    /// Off, people talk to each other. On, the workspace notices things on its
    /// own. Off by default so the human loop can be shown on its own.
    pub proactive: Proactive,
    pub next_id: u32,
}

#[verifier::ext_equal]
pub ghost struct ShellModel {
    pub threads: Seq<ThreadUiModel>,
    pub active: usize,
    pub target: Option<Target>,
    pub composer: ComposerModel,
    pub mention_sel: usize,
    pub picker_dismissed: bool,
    pub forwarding: Forwarding,
    pub view: Pane,
    pub dismissed: Seq<(usize, Seq<char>)>,
    pub auto_scheduled: Seq<(usize, Seq<char>)>,
    pub put_back: Seq<u32>,
    pub demo: Seq<(u64, BeatModel)>,
    pub proactive: Proactive,
    pub next_id: u32,
}

impl DeepView for Shell {
    type V = ShellModel;

    open spec fn deep_view(&self) -> ShellModel {
        ShellModel {
            threads: self.threads.deep_view(),
            active: self.active,
            target: self.target,
            composer: self.composer.deep_view(),
            mention_sel: self.mention_sel,
            picker_dismissed: self.picker_dismissed,
            forwarding: self.forwarding,
            view: self.view,
            dismissed: self.dismissed.deep_view(),
            auto_scheduled: self.auto_scheduled.deep_view(),
            put_back: self.put_back@,
            demo: self.demo.deep_view(),
            proactive: self.proactive,
            next_id: self.next_id,
        }
    }
}

// --------------------------------------------------------------- invariant --

/// The comments of a thread can travel, and have ids that were handed out.
pub open spec fn sound(comments: Seq<UiCommentModel>, next_id: u32) -> bool {
    forall|k: int|
        0 <= k < comments.len() ==> (#[trigger] comments[k]).portable() && comments[k].id
            <= next_id
}

/// No two comments, in one thread or in two, have the same id.
pub open spec fn distinct_ids(threads: Seq<ThreadUiModel>) -> bool {
    forall|i: int, k: int, j: int, l: int|
        #![trigger threads[i].comments[k], threads[j].comments[l]]
        0 <= i < threads.len() && 0 <= k < threads[i].comments.len() && 0 <= j < threads.len()
            && 0 <= l < threads[j].comments.len() && threads[i].comments[k].id
            == threads[j].comments[l].id ==> i == j && k == l
}

/// A thread holds at most one finding about a file.
pub open spec fn single_findings(comments: Seq<UiCommentModel>) -> bool {
    forall|k: int, l: int|
        #![trigger comments[k], comments[l]]
        0 <= k < l < comments.len() && comments[k].about is Some ==> comments[k].about
            != comments[l].about
}

/// Whether there is a finding about that file.
pub open spec fn has_finding(comments: Seq<UiCommentModel>, file: Seq<char>) -> bool {
    exists|k: int| 0 <= k < comments.len() && (#[trigger] comments[k]).is_about(file)
}

/// What was sent from a thread went to threads that exist.
pub open spec fn sent_to_threads(thread: ThreadUiModel, n: nat) -> bool {
    forall|k: int| 0 <= k < thread.sent.len() ==> (#[trigger] thread.sent[k]).to < n
}

impl ShellModel {
    /// What always holds of a shell.
    pub open spec fn well_formed(self) -> bool {
        &&& self.active < self.threads.len() <= u32::MAX
        &&& self.target matches Some(t) ==> t.valid()
        &&& forall|i: int| 0 <= i < self.threads.len() ==> (#[trigger] self.threads[i]).seed.numbered()
        &&& forall|i: int|
            0 <= i < self.threads.len() ==> sound(
                (#[trigger] self.threads[i]).comments,
                self.next_id,
            )
        &&& forall|i: int|
            0 <= i < self.threads.len() ==> sent_to_threads(
                #[trigger] self.threads[i],
                self.threads.len(),
            )
        &&& distinct_ids(self.threads)
        &&& forall|i: int|
            0 <= i < self.threads.len() ==> single_findings((#[trigger] self.threads[i]).comments)
        &&& forall|k: int|
            0 <= k < self.demo.len() ==> ((#[trigger] self.demo[k]).1 matches BeatModel::Select(t)
                ==> t.valid())
        &&& forall|k: int|
            0 <= k < self.put_back.len() ==> #[trigger] self.put_back[k] <= self.next_id
    }

    pub open spec fn current(self) -> ThreadUiModel {
        self.threads[self.active as int]
    }

    pub open spec fn with_thread(self, i: int, thread: ThreadUiModel) -> ShellModel {
        ShellModel { threads: self.threads.update(i, thread), ..self }
    }

    /// With a comment landed in thread `i`. It brings the id handed out last.
    pub open spec fn with_comment(self, i: int, comment: UiCommentModel) -> ShellModel {
        ShellModel {
            threads: self.threads.update(
                i,
                ThreadUiModel {
                    comments: self.threads[i].comments.push(comment),
                    ..self.threads[i]
                },
            ),
            next_id: comment.id,
            ..self
        }
    }

    /// With comment `k` of thread `i` in another state of delivery.
    pub open spec fn with_delivery(
        self,
        i: int,
        k: int,
        delivery: Delivery,
    ) -> ShellModel {
        let thread = self.threads[i];
        self.with_thread(
            i,
            ThreadUiModel {
                comments: thread.comments.update(
                    k,
                    UiCommentModel { delivery, ..thread.comments[k] },
                ),
                ..thread
            },
        )
    }

    /// With `text` typed into the composer. The picker follows what is typed.
    pub open spec fn with_typed(self, text: Seq<char>) -> ShellModel {
        ShellModel {
            composer: self.composer.with_text(text),
            picker_dismissed: false,
            mention_sel: 0,
            ..self
        }
    }

    /// With nothing in the composer.
    pub open spec fn with_nothing_typed(self) -> ShellModel {
        self.with_typed(Seq::empty())
    }
}

/// The same comments as far as identity goes: what differs is where they stand
/// with the agent, or who answered them.
pub open spec fn same_identities(a: Seq<UiCommentModel>, b: Seq<UiCommentModel>) -> bool {
    &&& a.len() == b.len()
    &&& forall|k: int|
        #![trigger a[k]]
        #![trigger b[k]]
        0 <= k < a.len() ==> a[k].id == b[k].id && a[k].anchor == b[k].anchor && a[k].author
            == b[k].author && a[k].mentions == b[k].mentions && a[k].about == b[k].about
}

/// A change that keeps every comment's identity keeps the shell well formed.
pub proof fn lemma_same_identities(a: ShellModel, b: ShellModel)
    requires
        a.well_formed(),
        b.threads.len() == a.threads.len(),
        b.active < b.threads.len(),
        b.target matches Some(t) ==> t.valid(),
        b.demo == a.demo,
        b.put_back == a.put_back,
        b.next_id == a.next_id,
        forall|i: int|
            #![trigger b.threads[i]]
            0 <= i < b.threads.len() ==> {
                &&& b.threads[i].seed == a.threads[i].seed
                &&& same_identities(a.threads[i].comments, b.threads[i].comments)
                &&& sent_to_threads(b.threads[i], b.threads.len())
            },
    ensures
        b.well_formed(),
{
    assert forall|i: int| 0 <= i < b.threads.len() implies (
    #[trigger] b.threads[i]).seed.numbered() by {
        assert(a.threads[i].seed.numbered());
    }
    assert forall|i: int| 0 <= i < b.threads.len() implies sound(
        (#[trigger] b.threads[i]).comments,
        b.next_id,
    ) by {
        assert(sound(a.threads[i].comments, a.next_id));
        assert forall|k: int| 0 <= k < b.threads[i].comments.len() implies (
        #[trigger] b.threads[i].comments[k]).portable() && b.threads[i].comments[k].id
            <= b.next_id by {
            assert(a.threads[i].comments[k].portable());
        }
    }
    assert forall|i: int, k: int, j: int, l: int|
        #![trigger b.threads[i].comments[k], b.threads[j].comments[l]]
        0 <= i < b.threads.len() && 0 <= k < b.threads[i].comments.len() && 0 <= j
            < b.threads.len() && 0 <= l < b.threads[j].comments.len()
            && b.threads[i].comments[k].id == b.threads[j].comments[l].id implies i == j && k
        == l by {
        assert(a.threads[i].comments[k].id == a.threads[j].comments[l].id);
    }
    assert forall|i: int| 0 <= i < b.threads.len() implies single_findings(
        (#[trigger] b.threads[i]).comments,
    ) by {
        assert(single_findings(a.threads[i].comments));
    }
}

/// A comment with a fresh id keeps the shell well formed.
pub proof fn lemma_with_comment(a: ShellModel, at: int, comment: UiCommentModel)
    requires
        a.well_formed(),
        0 <= at < a.threads.len(),
        comment.portable(),
        comment.id == a.next_id + 1,
        comment.about matches Some(file) ==> !has_finding(a.threads[at].comments, file),
    ensures
        a.with_comment(at, comment).well_formed(),
{
    let b = a.with_comment(at, comment);
    assert forall|i: int| 0 <= i < b.threads.len() implies (
    #[trigger] b.threads[i]).seed.numbered() by {
        assert(a.threads[i].seed.numbered());
    }
    assert forall|i: int| 0 <= i < b.threads.len() implies sent_to_threads(
        #[trigger] b.threads[i],
        b.threads.len(),
    ) by {
        assert(sent_to_threads(a.threads[i], a.threads.len()));
    }
    assert forall|i: int| 0 <= i < b.threads.len() implies sound(
        (#[trigger] b.threads[i]).comments,
        b.next_id,
    ) by {
        assert(sound(a.threads[i].comments, a.next_id));
    }
    assert forall|i: int, k: int, j: int, l: int|
        #![trigger b.threads[i].comments[k], b.threads[j].comments[l]]
        0 <= i < b.threads.len() && 0 <= k < b.threads[i].comments.len() && 0 <= j
            < b.threads.len() && 0 <= l < b.threads[j].comments.len()
            && b.threads[i].comments[k].id == b.threads[j].comments[l].id implies i == j && k
        == l by {
        assert(sound(a.threads[i].comments, a.next_id));
        assert(sound(a.threads[j].comments, a.next_id));
        let fresh_k = i == at && k == a.threads[at].comments.len();
        let fresh_l = j == at && l == a.threads[at].comments.len();
        if !fresh_k {
            assert(b.threads[i].comments[k] == a.threads[i].comments[k]);
        }
        if !fresh_l {
            assert(b.threads[j].comments[l] == a.threads[j].comments[l]);
        }
    }
    assert forall|i: int| 0 <= i < b.threads.len() implies single_findings(
        (#[trigger] b.threads[i]).comments,
    ) by {
        assert(single_findings(a.threads[i].comments));
    }
}

/// Taking a comment out keeps the shell well formed.
pub proof fn lemma_without_comment(a: ShellModel, at: int, k: int)
    requires
        a.well_formed(),
        0 <= at < a.threads.len(),
        0 <= k < a.threads[at].comments.len(),
    ensures
        a.with_thread(
            at,
            ThreadUiModel { comments: a.threads[at].comments.remove(k), ..a.threads[at] },
        ).well_formed(),
{
    let b = a.with_thread(
        at,
        ThreadUiModel { comments: a.threads[at].comments.remove(k), ..a.threads[at] },
    );
    assert forall|i: int| 0 <= i < b.threads.len() implies (
    #[trigger] b.threads[i]).seed.numbered() by {
        assert(a.threads[i].seed.numbered());
    }
    assert forall|i: int| 0 <= i < b.threads.len() implies sent_to_threads(
        #[trigger] b.threads[i],
        b.threads.len(),
    ) by {
        assert(sent_to_threads(a.threads[i], a.threads.len()));
    }
    assert forall|i: int| 0 <= i < b.threads.len() implies sound(
        (#[trigger] b.threads[i]).comments,
        b.next_id,
    ) by {
        assert(sound(a.threads[i].comments, a.next_id));
    }
    assert forall|i: int, m: int, j: int, l: int|
        #![trigger b.threads[i].comments[m], b.threads[j].comments[l]]
        0 <= i < b.threads.len() && 0 <= m < b.threads[i].comments.len() && 0 <= j
            < b.threads.len() && 0 <= l < b.threads[j].comments.len()
            && b.threads[i].comments[m].id == b.threads[j].comments[l].id implies i == j && m
        == l by {
        let m2 = if i == at && m >= k {
            m + 1
        } else {
            m
        };
        let l2 = if j == at && l >= k {
            l + 1
        } else {
            l
        };
        assert(b.threads[i].comments[m] == a.threads[i].comments[m2]);
        assert(b.threads[j].comments[l] == a.threads[j].comments[l2]);
    }
    assert forall|i: int| 0 <= i < b.threads.len() implies single_findings(
        (#[trigger] b.threads[i]).comments,
    ) by {
        assert(single_findings(a.threads[i].comments));
    }
}

// -------------------------------------------------------------------- code --

impl Shell {
    pub fn active(&self) -> (r: &ThreadUi)
        requires
            self.active < self.threads.len(),
        ensures
            r.deep_view() == self.deep_view().current(),
    {
        &self.threads[self.active]
    }

    pub fn composer_text(&self) -> (r: String)
        ensures
            r@ == self.deep_view().composer.content,
    {
        self.composer.text().to_owned()
    }

    /// Types into the composer. The picker follows what is typed.
    pub fn set_composer(&mut self, text: &str)
        ensures
            final(self).deep_view() == old(self).deep_view().with_typed(text@),
    {
        self.composer.set_text(text);
        self.picker_dismissed = false;
        self.mention_sel = 0;
    }

    pub(crate) fn clear_composer(&mut self)
        ensures
            final(self).deep_view() == old(self).deep_view().with_nothing_typed(),
    {
        self.composer.clear();
        self.picker_dismissed = false;
        self.mention_sel = 0;
    }

    /// Lands a comment in thread `i`.
    pub(crate) fn add_comment(&mut self, i: usize, comment: UiComment)
        requires
            i < old(self).threads.len(),
        ensures
            final(self).deep_view() == old(self).deep_view().with_comment(
                i as int,
                comment.deep_view(),
            ),
    {
        let ghost before = self.deep_view();
        let ghost c = comment.deep_view();
        self.next_id = comment.id;
        self.threads[i].comments.push(comment);
        assert(before.threads[i as int] == old(self).threads@[i as int].deep_view());
        assert(self.threads@[i as int].comments.deep_view()
            =~= before.threads[i as int].comments.push(c));
        assert(self.threads.deep_view() =~= before.with_comment(i as int, c).threads);
    }

    /// Puts comment `k` of thread `i` in another state of delivery.
    pub(crate) fn set_delivery(
        &mut self,
        i: usize,
        k: usize,
        delivery: Delivery,
    )
        requires
            i < old(self).threads.len(),
            k < old(self).threads@[i as int].comments.len(),
        ensures
            final(self).deep_view() == old(self).deep_view().with_delivery(
                i as int,
                k as int,
                delivery,
            ),
    {
        let ghost before = self.deep_view();
        self.threads[i].comments[k].delivery = delivery;
        let ghost now = before.with_delivery(i as int, k as int, delivery);
        assert(before.threads[i as int] == old(self).threads@[i as int].deep_view());
        assert(self.threads@[i as int].comments.deep_view() =~= now.threads[i as int].comments);
        assert(self.threads.deep_view() =~= now.threads);
    }

    pub fn observations(&self) -> (r: Vec<Observation>)
        ensures
            r.deep_view() == signals::observed(self.deep_view().threads),
    {
        signals::observe(&self.threads)
    }
}

/// Whether a list holds that thread and that file.
pub fn holds_pair(list: &Vec<(usize, String)>, thread: usize, file: &str) -> (r: bool)
    ensures
        r == list.deep_view().contains((thread, file@)),
{
    let ghost all = list.deep_view();
    let mut i: usize = 0;
    while i < list.len()
        invariant
            all == list.deep_view(),
            i <= list.len(),
            forall|k: int| 0 <= k < i ==> #[trigger] all[k] != (thread, file@),
        decreases list.len() - i,
    {
        assert(all[i as int] == (list@[i as int].0, list@[i as int].1@));
        if list[i].0 == thread && text::same_text(list[i].1.as_str(), file) {
            assert(all.contains((thread, file@)));
            return true;
        }
        i += 1;
    }
    false
}

} // verus!
