//! A thread as the shell holds it: its content, its comments, and what its
//! agent is doing.

use std::ops::Range;

use vstd::prelude::*;

use crate::lists;
use crate::model::anchor::{AnchorModel, PortableAnchor, Resolution, Snapshot, SnapshotModel};
use crate::model::comment::Delivery;
use crate::seed;
use crate::seed::{DiffLine, SeedThread, SeedThreadModel, Status};
use crate::shell::words;
use crate::text;

verus! {

/// What the composer is currently pointed at, in the *active* thread.
#[derive(Clone, Copy, Debug, PartialEq, Eq, Structural)]
pub enum Target {
    /// Index into the thread's blocks.
    Prose(usize),
    /// Inclusive run of the thread's diff-line indices.
    Diff(usize, usize),
    /// Replying to a comment. Same box, no new anchor -- it inherits the one
    /// the comment it answers already has.
    Reply(u32),
}

impl Target {
    /// Its lines can be counted and do not run backwards.
    pub open spec fn valid(self) -> bool {
        match self {
            Target::Prose(i) => i < u32::MAX,
            Target::Diff(a, b) => a <= b < u32::MAX,
            Target::Reply(_) => true,
        }
    }
}

/// Someone answering a comment. Not a different object, just a comment that
/// belongs to another one.
#[derive(Debug)]
pub struct CommentReply {
    pub handle: String,
    pub author: usize,
    pub body: String,
    pub mentions: Vec<usize>,
}

#[verifier::ext_equal]
pub ghost struct CommentReplyModel {
    pub handle: Seq<char>,
    pub author: usize,
    pub body: Seq<char>,
    pub mentions: Seq<usize>,
}

impl DeepView for CommentReply {
    type V = CommentReplyModel;

    open spec fn deep_view(&self) -> CommentReplyModel {
        CommentReplyModel {
            handle: self.handle@,
            author: self.author,
            body: self.body@,
            mentions: self.mentions@,
        }
    }
}

/// Where a comment came from. Handoff is direct-injection, so provenance is
/// load-bearing rather than decorative: it is the only thing distinguishing a
/// teammate's deliberate note from another thread's spillover.
#[derive(Clone, Copy, Debug)]
pub enum Provenance {
    Local,
    Forwarded { from_title: &'static str, forwarded_by: usize, original_author: usize },
}

#[verifier::ext_equal]
pub ghost enum ProvenanceModel {
    Local,
    Forwarded { from_title: Seq<char>, forwarded_by: usize, original_author: usize },
}

impl DeepView for Provenance {
    type V = ProvenanceModel;

    open spec fn deep_view(&self) -> ProvenanceModel {
        match self {
            Provenance::Local => ProvenanceModel::Local,
            Provenance::Forwarded { from_title, forwarded_by, original_author } =>
            ProvenanceModel::Forwarded {
                from_title: from_title@,
                forwarded_by: *forwarded_by,
                original_author: *original_author,
            },
        }
    }
}

#[derive(Debug)]
pub struct UiComment {
    pub id: u32,
    /// Something a person can say out loud: `labels-3`. The integer id is for
    /// element keys; this is what you use to refer to a comment.
    pub handle: String,
    /// The real portable anchor. Carrying this rather than a line number is
    /// what lets a comment survive being forwarded to another thread.
    pub anchor: PortableAnchor,
    /// Where the anchor lands *in the thread holding this comment*. Recomputed
    /// on arrival; never inherited from the sender.
    pub resolved: Resolution,
    pub body: String,
    pub author: usize,
    pub mentions: Vec<usize>,
    pub origin: Provenance,
    pub delivery: Delivery,
    /// Set when this comment is the agent flagging a design divergence rather
    /// than a person leaving a note. Indexes `seed::divergences`.
    pub divergence: Option<usize>,
    /// The file a workspace finding is about. Its identity -- dedup, dismissal
    /// and board status all key on this rather than on the body text, which
    /// names the other threads and therefore changes when they do.
    pub about: Option<String>,
    /// Answers to this comment, in order.
    pub replies: Vec<CommentReply>,
}

#[verifier::ext_equal]
pub ghost struct UiCommentModel {
    pub id: u32,
    pub handle: Seq<char>,
    pub anchor: AnchorModel,
    pub resolved: Resolution,
    pub body: Seq<char>,
    pub author: usize,
    pub mentions: Seq<usize>,
    pub origin: ProvenanceModel,
    pub delivery: Delivery,
    pub divergence: Option<usize>,
    pub about: Option<Seq<char>>,
    pub replies: Seq<CommentReplyModel>,
}

impl DeepView for UiComment {
    type V = UiCommentModel;

    open spec fn deep_view(&self) -> UiCommentModel {
        UiCommentModel {
            id: self.id,
            handle: self.handle@,
            anchor: self.anchor.deep_view(),
            resolved: self.resolved,
            body: self.body@,
            author: self.author,
            mentions: self.mentions@,
            origin: self.origin.deep_view(),
            delivery: self.delivery,
            divergence: self.divergence,
            about: self.about.deep_view(),
            replies: self.replies.deep_view(),
        }
    }
}

impl UiCommentModel {
    /// Its anchor can be resolved anywhere, and whom it names can be named in an
    /// envelope.
    pub open spec fn portable(self) -> bool {
        &&& self.anchor.well_formed()
        &&& self.author <= u32::MAX
        &&& forall|i: int| 0 <= i < self.mentions.len() ==> #[trigger] self.mentions[i] <= u32::MAX
    }

    pub open spec fn is_about(self, file: Seq<char>) -> bool {
        self.about == Some(file)
    }
}

/// What an `@` can address.
///
/// Two kinds, doing different jobs. A person is addressed *here* -- it puts
/// their name on a note in this thread. A thread is a reference to work
/// happening elsewhere; it links, it does not deliver. Sending something to
/// another thread is forwarding, and that stays a separate, deliberate act.
#[derive(Clone, Copy, Debug, PartialEq, Eq, Structural)]
pub enum MentionTarget {
    Actor(usize),
    Thread(usize),
}

/// An agent response addressed to one specific comment.
#[derive(Debug)]
pub struct AgentReply {
    pub in_reply_to: u32,
    pub quote: String,
    pub quote_author: usize,
    pub body: String,
    pub turn: u32,
}

#[verifier::ext_equal]
pub ghost struct AgentReplyModel {
    pub in_reply_to: u32,
    pub quote: Seq<char>,
    pub quote_author: usize,
    pub body: Seq<char>,
    pub turn: u32,
}

impl DeepView for AgentReply {
    type V = AgentReplyModel;

    open spec fn deep_view(&self) -> AgentReplyModel {
        AgentReplyModel {
            in_reply_to: self.in_reply_to,
            quote: self.quote@,
            quote_author: self.quote_author,
            body: self.body@,
            turn: self.turn,
        }
    }
}

/// What this thread sent somewhere else, and where it went.
///
/// Kept on the *sending* side. Without it a forward vanishes the moment it is
/// sent: the sender is left believing it warned someone, with nothing on screen
/// either way. Status is read live from the recipient rather than snapshotted,
/// so it tracks what they actually did with it.
#[derive(Debug)]
pub struct SentRecord {
    pub to: usize,
    pub comment: u32,
    pub excerpt: String,
}

#[verifier::ext_equal]
pub ghost struct SentRecordModel {
    pub to: usize,
    pub comment: u32,
    pub excerpt: Seq<char>,
}

impl DeepView for SentRecord {
    type V = SentRecordModel;

    open spec fn deep_view(&self) -> SentRecordModel {
        SentRecordModel { to: self.to, comment: self.comment, excerpt: self.excerpt@ }
    }
}

#[derive(Debug)]
pub struct ThreadUi {
    pub seed: SeedThread,
    pub project: &'static str,
    pub comments: Vec<UiComment>,
    pub replies: Vec<AgentReply>,
    pub sent: Vec<SentRecord>,
    pub turn: u32,
    pub unread: bool,
    /// The agent is mid-turn. Anything arriving now waits for the boundary
    /// rather than being spliced into a prompt that is already in flight.
    pub agent_busy: bool,
}

#[verifier::ext_equal]
pub ghost struct ThreadUiModel {
    pub seed: SeedThreadModel,
    pub project: Seq<char>,
    pub comments: Seq<UiCommentModel>,
    pub replies: Seq<AgentReplyModel>,
    pub sent: Seq<SentRecordModel>,
    pub turn: u32,
    pub unread: bool,
    pub agent_busy: bool,
}

impl DeepView for ThreadUi {
    type V = ThreadUiModel;

    open spec fn deep_view(&self) -> ThreadUiModel {
        ThreadUiModel {
            seed: self.seed.deep_view(),
            project: self.project@,
            comments: self.comments.deep_view(),
            replies: self.replies.deep_view(),
            sent: self.sent.deep_view(),
            turn: self.turn,
            unread: self.unread,
            agent_busy: self.agent_busy,
        }
    }
}

impl SeedThreadModel {
    /// The lines of its diff are numbered upwards and can be counted.
    pub open spec fn numbered(self) -> bool {
        &&& self.diff_lines.len() <= u32::MAX
        &&& forall|i: int, j: int|
            0 <= i <= j < self.diff_lines.len() ==> (#[trigger] self.diff_lines[i]).0 <= (
            #[trigger] self.diff_lines[j]).0
        &&& forall|i: int|
            0 <= i < self.diff_lines.len() ==> (#[trigger] self.diff_lines[i]).0 < u32::MAX
    }
}

/// What the lines of a diff say.
pub open spec fn said(lines: Seq<(u32, Option<bool>, Seq<char>)>) -> Seq<Seq<char>> {
    Seq::new(lines.len(), |i: int| lines[i].2)
}

/// What the blocks of a transcript say.
pub open spec fn told(blocks: Seq<seed::BlockModel>) -> Seq<Seq<char>> {
    Seq::new(blocks.len(), |i: int| blocks[i].text)
}

impl ThreadUiModel {
    pub open spec fn diff_path(self) -> Seq<char> {
        self.seed.diff_dir + self.seed.diff_file
    }

    /// The diff pane's text, as a snapshot anchors can resolve against.
    pub open spec fn diff_snapshot(self) -> SnapshotModel {
        SnapshotModel {
            file: self.diff_path(),
            lines: text::lines(text::joined(said(self.seed.diff_lines), seq!['\n'])),
        }
    }

    pub open spec fn prose_path(self) -> Seq<char> {
        "thread://"@ + seed::root(self.seed.title) + "/transcript"@
    }

    /// The transcript, as a snapshot anchors can resolve against.
    pub open spec fn prose_snapshot(self) -> SnapshotModel {
        SnapshotModel {
            file: self.prose_path(),
            lines: text::lines(text::joined(told(self.seed.blocks), seq!['\n'])),
        }
    }

    pub open spec fn has_diff(self) -> bool {
        self.seed.diff_lines.len() > 0
    }

    /// File line numbers this worktree is dirty across.
    pub open spec fn dirty_lines(self) -> Option<Range<u32>> {
        if self.has_diff() {
            Some(
                Range {
                    start: self.seed.diff_lines.first().0,
                    end: (self.seed.diff_lines.last().0 + 1) as u32,
                },
            )
        } else {
            None
        }
    }

    /// Its agent is working, and has changed `file`.
    pub open spec fn live_in(self, file: Seq<char>) -> bool {
        self.agent_busy && self.has_diff() && self.diff_path() == file
    }

    /// Where an anchor lands in this thread: in its diff, else in its
    /// transcript.
    pub open spec fn resolved_in(self, anchor: AnchorModel) -> Resolution {
        let in_diff = anchor.resolved(self.diff_snapshot());
        if in_diff is Orphaned {
            anchor.resolved(self.prose_snapshot())
        } else {
            in_diff
        }
    }

    /// The handle of the comment that lands here next.
    pub open spec fn next_handle(self) -> Seq<char> {
        words::slug_of(self.seed).push('-') + text::decimal(self.comments.len() + 1)
    }

    /// Where the comment with that id stands.
    pub open spec fn comment_at(self, id: u32) -> Option<int> {
        lists::place(self.comments, |c: UiCommentModel| c.id == id)
    }
}

impl ThreadUi {
    pub fn diff_path(&self) -> (r: String)
        ensures
            r@ == self.deep_view().diff_path(),
    {
        let mut out = self.seed.diff_dir.to_owned();
        out.append(self.seed.diff_file);
        out
    }

    /// The diff pane's text, as a snapshot anchors can resolve against.
    pub fn diff_snapshot(&self) -> (r: Snapshot)
        ensures
            r.deep_view() == self.deep_view().diff_snapshot(),
    {
        let ghost lines = said(self.seed.diff_lines.deep_view());
        let mut parts: Vec<String> = Vec::new();
        let mut i: usize = 0;
        while i < self.seed.diff_lines.len()
            invariant
                lines == said(self.seed.diff_lines.deep_view()),
                i <= self.seed.diff_lines.len(),
                parts.deep_view() == lines.take(i as int),
            decreases self.seed.diff_lines.len() - i,
        {
            let ghost before = parts.deep_view();
            parts.push(self.seed.diff_lines[i].2.to_owned());
            assert(parts.deep_view() =~= before.push(lines[i as int]));
            i += 1;
            assert(parts.deep_view() =~= lines.take(i as int));
        }
        assert(parts.deep_view() =~= lines);
        let text = join_lines(&parts);
        Snapshot::new(self.diff_path().as_str(), text.as_str())
    }

    /// The transcript's path. A branch inherits its parent's transcript, so the
    /// pair shares a coordinate system and prose anchors can cross between
    /// them. Unrelated threads get distinct paths and are forced to orphan.
    pub fn prose_path(&self) -> (r: String)
        ensures
            r@ == self.deep_view().prose_path(),
    {
        let mut out = "thread://".to_owned();
        out.append(seed::transcript_root(self.seed.title));
        out.append("/transcript");
        out
    }

    pub fn prose_snapshot(&self) -> (r: Snapshot)
        ensures
            r.deep_view() == self.deep_view().prose_snapshot(),
    {
        let ghost lines = told(self.seed.blocks.deep_view());
        let mut parts: Vec<String> = Vec::new();
        let mut i: usize = 0;
        while i < self.seed.blocks.len()
            invariant
                lines == told(self.seed.blocks.deep_view()),
                i <= self.seed.blocks.len(),
                parts.deep_view() == lines.take(i as int),
            decreases self.seed.blocks.len() - i,
        {
            let ghost before = parts.deep_view();
            parts.push(self.seed.blocks[i].text.to_owned());
            assert(parts.deep_view() =~= before.push(lines[i as int]));
            i += 1;
            assert(parts.deep_view() =~= lines.take(i as int));
        }
        assert(parts.deep_view() =~= lines);
        let text = join_lines(&parts);
        Snapshot::new(self.prose_path().as_str(), text.as_str())
    }

    pub fn has_diff(&self) -> (r: bool)
        ensures
            r == self.deep_view().has_diff(),
    {
        self.seed.diff_lines.len() > 0
    }

    /// File line numbers this worktree is dirty across.
    pub fn dirty_lines(&self) -> (r: Option<Range<u32>>)
        requires
            self.deep_view().has_diff() ==> self.deep_view().seed.diff_lines.last().0 < u32::MAX,
        ensures
            r == self.deep_view().dirty_lines(),
    {
        let n = self.seed.diff_lines.len();
        if n == 0 {
            return None;
        }
        assert(self.seed.diff_lines.deep_view().first().0 == self.seed.diff_lines@[0].0);
        assert(self.seed.diff_lines.deep_view().last().0 == self.seed.diff_lines@[n - 1].0);
        Some(self.seed.diff_lines[0].0..self.seed.diff_lines[n - 1].0 + 1)
    }

    /// Where the comment with that id stands.
    pub fn find_comment(&self, id: u32) -> (r: Option<usize>)
        ensures
            match r {
                Some(i) => i < self.comments.len() && self.deep_view().comment_at(id) == Some(
                    i as int,
                ),
                None => self.deep_view().comment_at(id) is None,
            },
    {
        let ghost all = self.comments.deep_view();
        let ghost p = |c: UiCommentModel| c.id == id;
        let mut i: usize = 0;
        while i < self.comments.len()
            invariant
                all == self.comments.deep_view(),
                p == (|c: UiCommentModel| c.id == id),
                i <= self.comments.len(),
                lists::position(all, p) == lists::position_from(all, p, i as int),
            decreases self.comments.len() - i,
        {
            assert(all[i as int] == self.comments@[i as int].deep_view());
            if self.comments[i].id == id {
                return Some(i);
            }
            i += 1;
        }
        None
    }
}

fn join_lines(parts: &Vec<String>) -> (r: String)
    ensures
        r@ == text::joined(parts.deep_view(), seq!['\n']),
{
    let mut newline = String::new();
    newline.push('\n');
    assert(newline@ =~= seq!['\n']);
    text::join(parts, newline.as_str())
}

// ---------------------------------------------------------------- arrivals --

/// What state a comment is in when it lands.
pub open spec fn arrival(by_agent: bool, recipient_busy: bool) -> Delivery {
    if by_agent || recipient_busy {
        Delivery::Queued
    } else {
        Delivery::Pending
    }
}

/// What state a comment should be in when it lands in `to`.
///
/// The *recipient's* situation decides this, never the sender's judgement.
/// Someone noting a bug in passing should not have to know whether the other
/// thread's agent is busy, and should not be blamed for interrupting it.
pub fn arrival_delivery(by: usize, recipient_busy: bool) -> (r: Delivery)
    requires
        by < seed::everyone().len(),
    ensures
        r == arrival(seed::everyone()[by as int].agent, recipient_busy),
{
    if seed::actor(by).agent {
        // Agents will eventually initiate these themselves. An agent's forward
        // always waits for a human to release it, otherwise two agents can
        // drive each other round a loop with nobody in it.
        return Delivery::Queued;
    }
    if recipient_busy {
        Delivery::Queued
    } else {
        Delivery::Pending
    }
}

/// Whether a forward may travel to `to_title`.
pub open spec fn allowed(by_agent: bool, origin: Option<Seq<char>>, to_title: Seq<char>) -> bool {
    !(by_agent && origin == Some(to_title))
}

/// The other half of the agent-initiated case: a forward must not travel back
/// to the thread the comment came from. That is the A -> B -> A loop.
pub fn forward_allowed(by: usize, origin: Option<&str>, to_title: &str) -> (r: bool)
    requires
        by < seed::everyone().len(),
    ensures
        r == allowed(seed::everyone()[by as int].agent, origin.deep_view(), to_title@),
{
    let home = match origin {
        Some(title) => text::same_text(title, to_title),
        None => false,
    };
    !(seed::actor(by).agent && home)
}

/// An agent's forward never arrives armed and never goes home; a person's goes
/// anywhere, and arrives armed exactly when the recipient is not mid-turn.
pub proof fn agents_wait_and_never_return_home(
    busy: bool,
    home: Seq<char>,
    elsewhere: Seq<char>,
)
    requires
        home != elsewhere,
    ensures
        arrival(true, busy) == Delivery::Queued,
        !allowed(true, Some(home), home),
        allowed(true, Some(home), elsewhere),
        allowed(false, Some(home), home),
        arrival(false, busy) == Delivery::Pending <==> !busy,
        arrival(false, true) == Delivery::Queued,
{
}

/// `labels-3` -- the thread it lives in, and which comment it is there.
pub fn comment_handle(thread: &ThreadUi) -> (r: String)
    ensures
        r@ == thread.deep_view().next_handle(),
{
    let mut out = words::thread_slug(&thread.seed);
    out.push('-');
    let n = text::write_decimal(thread.comments.len() as u128 + 1);
    out.append(n.as_str());
    out
}

/// Where an anchor lands in a thread.
pub fn resolve_in(thread: &ThreadUi, anchor: &PortableAnchor) -> (r: Resolution)
    requires
        anchor.deep_view().well_formed(),
    ensures
        r == thread.deep_view().resolved_in(anchor.deep_view()),
{
    let in_diff = anchor.resolve(&thread.diff_snapshot());
    if !in_diff.is_orphaned() {
        return in_diff;
    }
    anchor.resolve(&thread.prose_snapshot())
}

/// An anchor lands only in a thread that has its file: in the diff it was taken
/// from, or in the transcript it was taken from. Anywhere else it is orphaned
/// rather than guessed at.
pub proof fn anchors_stay_in_their_file(thread: ThreadUiModel, anchor: AnchorModel)
    requires
        anchor.file != thread.diff_path(),
        anchor.file != thread.prose_path(),
    ensures
        thread.resolved_in(anchor) is Orphaned,
{
}

/// Threads share a transcript exactly when they have the same root, so prose
/// anchors cross between a branch and its parent and between no others.
pub proof fn transcripts_are_scoped_by_root(a: ThreadUiModel, b: ThreadUiModel)
    ensures
        a.prose_path() == b.prose_path() <==> seed::root(a.seed.title) == seed::root(b.seed.title),
{
    let x = seed::root(a.seed.title);
    let y = seed::root(b.seed.title);
    let head = "thread://"@;
    let tail = "/transcript"@;
    if a.prose_path() == b.prose_path() {
        let p = a.prose_path();
        assert(p.len() == head.len() + x.len() + tail.len());
        assert(b.prose_path().len() == head.len() + y.len() + tail.len());
        assert(x =~= p.subrange(head.len() as int, p.len() - tail.len()));
        assert(y =~= b.prose_path().subrange(head.len() as int, p.len() - tail.len()));
    }
}

// ------------------------------------------------------------------ places --

/// Whether a resolution covers line `index`.
pub open spec fn covered(resolution: Resolution, index: usize) -> bool {
    match resolution.spec_lines() {
        Some(lines) => lines.start <= (index as u32) < lines.end,
        None => false,
    }
}

pub fn covers(resolution: &Resolution, index: usize) -> (r: bool)
    ensures
        r == covered(*resolution, index),
{
    match resolution.lines() {
        Some(lines) => (index as u32) >= lines.start && (index as u32) < lines.end,
        None => false,
    }
}

/// Human-readable location, driven by where the anchor *resolved* rather than
/// by whatever line numbers the sender happened to have.
pub open spec fn place_of(
    comment: UiCommentModel,
    diff_path: Seq<char>,
    diff_file: Seq<char>,
    diff_lines: Seq<(u32, Option<bool>, Seq<char>)>,
) -> Seq<char> {
    match comment.resolved.spec_lines() {
        None => words::spoken_path(comment.anchor.file) + " (unanchored)"@,
        Some(lines) => {
            let last = if lines.end > 0 {
                lines.end - 1
            } else {
                0
            };
            if comment.anchor.file != diff_path {
                "transcript"@
            } else if lines.start < diff_lines.len() && last < diff_lines.len() {
                diff_file + "  (line: "@ + text::decimal(
                    diff_lines[lines.start as int].0 as nat,
                ).push('-') + text::decimal(diff_lines[last].0 as nat).push(')')
            } else {
                diff_file
            }
        },
    }
}

/// Human-readable location, driven by where the anchor *resolved* rather than
/// by whatever line numbers the sender happened to have.
pub fn describe_where(
    comment: &UiComment,
    diff_path: &str,
    diff_file: &str,
    diff_lines: &Vec<DiffLine>,
) -> (r: String)
    ensures
        r@ == place_of(comment.deep_view(), diff_path@, diff_file@, diff_lines.deep_view()),
{
    let range = match comment.resolved.lines() {
        Some(range) => range,
        None => {
            let mut out = words::short_path(comment.anchor.file.as_str());
            out.append(" (unanchored)");
            return out;
        },
    };
    if !text::same_text(comment.anchor.file.as_str(), diff_path) {
        return "transcript".to_owned();
    }
    let n = diff_lines.len() as u64;
    let last: u32 = if range.end > 0 {
        range.end - 1
    } else {
        0
    };
    if (range.start as u64) < n && (last as u64) < n {
        let first = range.start as usize;
        let end = last as usize;
        assert(diff_lines.deep_view()[first as int].0 == diff_lines@[first as int].0);
        assert(diff_lines.deep_view()[end as int].0 == diff_lines@[end as int].0);
        let mut out = diff_file.to_owned();
        out.append("  (line: ");
        let mut a = text::write_decimal(diff_lines[first].0 as u128);
        a.push('-');
        out.append(a.as_str());
        let mut b = text::write_decimal(diff_lines[end].0 as u128);
        b.push(')');
        out.append(b.as_str());
        out
    } else {
        diff_file.to_owned()
    }
}

/// What the dot beside a thread says: what its agent is doing now, not what it
/// was doing at launch.
pub open spec fn dot_of(busy: bool, status: Status) -> u32 {
    if busy {
        0x4A9E5C
    } else if status == Status::Conflicting {
        0xE0A030
    } else {
        0x555555
    }
}

pub fn dot_color(thread: &ThreadUi) -> (r: u32)
    ensures
        r == dot_of(thread.deep_view().agent_busy, thread.deep_view().seed.status),
{
    if thread.agent_busy {
        0x4A9E5C
    } else if thread.seed.status == Status::Conflicting {
        0xE0A030
    } else {
        0x555555
    }
}

} // verus!
