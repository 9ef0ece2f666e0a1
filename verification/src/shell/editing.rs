//! Pointing the composer at something, and committing what it holds.

use std::ops::Range;

use vstd::prelude::*;

use crate::model::anchor;
use crate::model::anchor::{AnchorModel, BlockKind, PortableAnchor};
use crate::model::comment::Delivery;
use crate::seed;
use crate::seed::DiffLine;
use crate::shell::state;
use crate::shell::state::{Forwarding, Shell, ShellModel, Turn, TurnModel};
use crate::shell::sweep;
use crate::shell::threads;
use crate::shell::threads::{
    CommentReply, CommentReplyModel, Provenance, ProvenanceModel, Target, ThreadUi, ThreadUiModel,
    UiComment, UiCommentModel,
};
use crate::shell::words;
use crate::text;

verus! {

/// The anchor for what a target points at. A reply points at nothing of its own.
pub open spec fn target_anchor(thread: ThreadUiModel, target: Target) -> Option<AnchorModel> {
    match target {
        Target::Prose(i) => Some(
            anchor::captured(
                thread.prose_snapshot(),
                BlockKind::Paragraph,
                Range { start: i as u32, end: (i + 1) as u32 },
                true,
            ),
        ),
        Target::Diff(a, b) => Some(
            anchor::captured(
                thread.diff_snapshot(),
                BlockKind::DiffHunk,
                Range { start: a as u32, end: (b + 1) as u32 },
                true,
            ),
        ),
        Target::Reply(_) => None,
    }
}

/// The anchor for what a target points at, captured so that what is said about
/// it is portable from birth.
pub fn anchor_target(thread: &ThreadUi, target: Target) -> (r: Option<PortableAnchor>)
    requires
        target.valid(),
    ensures
        r.deep_view() == target_anchor(thread.deep_view(), target),
        r matches Some(a) ==> a.deep_view().well_formed(),
{
    let (snapshot, kind, lines) = match target {
        Target::Prose(i) => (
            thread.prose_snapshot(),
            BlockKind::Paragraph,
            i as u32..(i as u32 + 1),
        ),
        Target::Diff(a, b) => (
            thread.diff_snapshot(),
            BlockKind::DiffHunk,
            a as u32..(b as u32 + 1),
        ),
        Target::Reply(_) => {
            return None;
        },
    };
    proof {
        anchor::lemma_captured_is_well_formed(snapshot.deep_view(), kind, lines, true);
    }
    Some(PortableAnchor::capture(&snapshot, kind, lines, true))
}

impl ShellModel {
    /// With the composer pointed at `target`, empty.
    pub open spec fn begun(self, target: Target) -> ShellModel {
        ShellModel {
            target: Some(target),
            forwarding: Forwarding::Idle,
            ..self.with_nothing_typed()
        }
    }

    /// What has been typed, without the white space around it.
    pub open spec fn note(self) -> Seq<char> {
        text::trimmed(self.composer.content)
    }

    /// The comment that committing makes of the note.
    pub open spec fn written(self, anchor: AnchorModel) -> UiCommentModel {
        UiCommentModel {
            id: (self.next_id + 1) as u32,
            handle: self.current().next_handle(),
            anchor,
            resolved: self.current().resolved_in(anchor),
            body: self.note(),
            author: seed::ME,
            mentions: words::mentioned(text::words(self.note())),
            origin: ProvenanceModel::Local,
            delivery: Delivery::Pending,
            divergence: None,
            about: None,
            replies: Seq::empty(),
        }
    }

    /// With the note added to the replies of the comment with that id.
    pub open spec fn replied(self, parent: u32) -> ShellModel {
        match self.current().comment_at(parent) {
            Some(k) => {
                let comment = self.current().comments[k];
                let reply = CommentReplyModel {
                    handle: comment.handle.push('.') + text::decimal(comment.replies.len() + 1),
                    author: seed::ME,
                    body: self.note(),
                    mentions: words::mentioned(text::words(self.note())),
                };
                self.with_thread(
                    self.active as int,
                    ThreadUiModel {
                        comments: self.current().comments.update(
                            k,
                            UiCommentModel { replies: comment.replies.push(reply), ..comment },
                        ),
                        ..self.current()
                    },
                )
            },
            None => self,
        }
    }

    /// After Enter, with the turn that starts, if one does. A reply joins the
    /// comment it answers. Anything else lands in the current thread, and goes
    /// straight to its agent unless that is mid-turn.
    #[verifier::opaque]
    pub open spec fn committed(self) -> (ShellModel, Option<TurnModel>) {
        match self.target {
            Some(target) if self.note().len() > 0 => match target {
                Target::Reply(parent) => (
                    ShellModel { target: None, ..self.replied(parent).with_nothing_typed() },
                    None,
                ),
                _ => {
                    let comment = self.written(target_anchor(self.current(), target)->0);
                    let landed = ShellModel {
                        target: None,
                        ..self.with_comment(self.active as int, comment).with_nothing_typed()
                    };
                    if self.current().agent_busy {
                        (landed, None)
                    } else {
                        (landed.batch_sent().0, Some(landed.batch_sent().1))
                    }
                },
            },
            _ => (self, None),
        }
    }

    /// Committing makes a comment, and there is an id for it and a number for
    /// the turn it may start.
    pub open spec fn can_commit(self) -> bool {
        self.note().len() > 0 && (self.target is Some) && !(self.target->0 is Reply) ==> {
            &&& self.next_id < u32::MAX
            &&& self.current().agent_busy || self.current().turn < u32::MAX
        }
    }
}

impl Shell {
    /// Points the composer at something.
    pub fn begin(&mut self, target: Target)
        requires
            old(self).deep_view().well_formed(),
            target.valid(),
        ensures
            final(self).deep_view() == old(self).deep_view().begun(target),
            final(self).deep_view().well_formed(),
    {
        self.target = Some(target);
        self.clear_composer();
        self.forwarding = Forwarding::Idle;
    }

    /// Points the composer at the change block around line `i` of the diff.
    pub fn begin_at_diff_line(&mut self, i: usize)
        requires
            old(self).deep_view().well_formed(),
            i < old(self).deep_view().current().seed.diff_lines.len(),
        ensures
            exists|a: usize, b: usize|
                {
                    &&& #[trigger] is_block(
                        old(self).deep_view().current().seed.diff_lines,
                        i as int,
                        a as int,
                        b as int,
                    )
                    &&& final(self).deep_view() == old(self).deep_view().begun(
                        Target::Diff(a, b),
                    )
                },
            final(self).deep_view().well_formed(),
    {
        let ghost m = self.deep_view();
        assert(m.current() == self.threads@[self.active as int].deep_view());
        assert(m.threads[self.active as int].seed.numbered());
        let (a, b) = change_block(&self.threads[self.active].seed.diff_lines, i);
        self.begin(Target::Diff(a, b));
    }

    /// Enter sends. There is no second step -- the comment is in the thread and
    /// the agent picks it up.
    pub fn commit(&mut self) -> (r: Option<Turn>)
        requires
            old(self).deep_view().well_formed(),
            old(self).deep_view().can_commit(),
        ensures
            final(self).deep_view() == old(self).deep_view().committed().0,
            r.deep_view() == old(self).deep_view().committed().1,
            final(self).deep_view().well_formed(),
    {
        let ghost m = self.deep_view();
        proof {
            reveal(ShellModel::committed);
        }
        let body = text::trim(self.composer.text());
        let target = match self.target {
            Some(target) => target,
            None => {
                return None;
            },
        };
        if text::is_empty(body.as_str()) {
            return None;
        }
        let mentions = words::parse_mentions(body.as_str());
        let active = self.active;
        assert(m.current() == self.threads@[active as int].deep_view());

        // Answering a comment needs no anchor of its own.
        if let Target::Reply(parent) = target {
            self.reply(parent, body, mentions);
            self.clear_composer();
            self.target = None;
            return None;
        }
        let anchor = match anchor_target(&self.threads[active], target) {
            Some(anchor) => anchor,
            None => {
                return None;
            },
        };
        let resolved = threads::resolve_in(&self.threads[active], &anchor);
        let handle = threads::comment_handle(&self.threads[active]);
        let comment = UiComment {
            id: self.next_id + 1,
            handle,
            anchor,
            resolved,
            body,
            author: seed::ME,
            mentions,
            origin: Provenance::Local,
            delivery: Delivery::Pending,
            divergence: None,
            about: None,
            replies: Vec::new(),
        };
        assert(comment.replies.deep_view() =~= Seq::<CommentReplyModel>::empty());
        let ghost c = comment.deep_view();
        assert(c =~= m.written(target_anchor(m.current(), target)->0));
        proof {
            sweep::lemma_mentions_fit(m.note());
            state::lemma_with_comment(m, active as int, c);
        }
        self.add_comment(active, comment);
        self.clear_composer();
        self.target = None;
        let ghost landed = self.deep_view();
        proof {
            lemma_untyped(m.with_comment(active as int, c), landed);
            assert(landed.current() == self.threads@[active as int].deep_view());
        }
        if !self.threads[active].agent_busy {
            Some(self.send_batch())
        } else {
            None
        }
    }

    /// Adds a reply to the comment with that id.
    fn reply(&mut self, parent: u32, body: String, mentions: Vec<usize>)
        requires
            old(self).deep_view().well_formed(),
            body@ == old(self).deep_view().note(),
            mentions@ == words::mentioned(text::words(old(self).deep_view().note())),
        ensures
            final(self).deep_view() == old(self).deep_view().replied(parent),
            final(self).deep_view().well_formed(),
    {
        let ghost m = self.deep_view();
        let active = self.active;
        assert(m.current() == self.threads@[active as int].deep_view());
        let k = match self.threads[active].find_comment(parent) {
            Some(k) => k,
            None => {
                return;
            },
        };
        let ghost was = m.current().comments[k as int];
        assert(was == self.threads@[active as int].comments@[k as int].deep_view());
        let mut handle = self.threads[active].comments[k].handle.clone();
        handle.push('.');
        let n = text::write_decimal(
            self.threads[active].comments[k].replies.len() as u128 + 1,
        );
        handle.append(n.as_str());
        let reply = CommentReply { handle, author: seed::ME, body, mentions };
        let ghost r = reply.deep_view();
        self.threads[active].comments[k].replies.push(reply);
        proof {
            let after = m.replied(parent);
            assert(self.threads@[active as int].comments@[k as int].replies.deep_view()
                =~= was.replies.push(r));
            assert(self.threads@[active as int].comments.deep_view()
                =~= after.current().comments);
            assert(self.threads.deep_view() =~= after.threads);
            assert forall|j: int| 0 <= j < after.threads.len() implies {
                &&& (#[trigger] after.threads[j]).seed == m.threads[j].seed
                &&& state::same_identities(m.threads[j].comments, after.threads[j].comments)
                &&& state::sent_to_threads(after.threads[j], after.threads.len())
            } by {
                assert(state::sent_to_threads(m.threads[j], m.threads.len()));
            }
            state::lemma_same_identities(m, after);
        }
    }
}

/// Clearing the composer and the target keeps the shell well formed.
proof fn lemma_untyped(a: ShellModel, b: ShellModel)
    requires
        a.well_formed(),
        b == (ShellModel { target: None, ..a.with_nothing_typed() }),
    ensures
        b.well_formed(),
{
}

// ------------------------------------------------------------ change blocks --

/// The lines `a..=b` are the run around line `i` with the same change, as long
/// as it can be.
pub open spec fn is_block(
    lines: Seq<(u32, Option<bool>, Seq<char>)>,
    i: int,
    a: int,
    b: int,
) -> bool {
    &&& 0 <= a <= i <= b < lines.len()
    &&& forall|k: int| a <= k <= b ==> (#[trigger] lines[k]).1 == lines[i].1
    &&& a > 0 ==> lines[a - 1].1 != lines[i].1
    &&& b + 1 < lines.len() ==> lines[b + 1].1 != lines[i].1
}

/// Whichever line of a change block is clicked, the block is the same.
pub proof fn a_change_block_is_the_same_from_every_line(
    lines: Seq<(u32, Option<bool>, Seq<char>)>,
    i: int,
    a: int,
    b: int,
    j: int,
    c: int,
    d: int,
)
    requires
        is_block(lines, i, a, b),
        is_block(lines, j, c, d),
        a <= j <= b,
    ensures
        a == c && b == d,
{
    assert(lines[j].1 == lines[i].1);
    if a < c {
        assert(lines[c - 1].1 == lines[i].1);
    }
    if c < a {
        assert(lines[a - 1].1 == lines[j].1);
    }
    if b < d {
        assert(lines[b + 1].1 == lines[j].1);
    }
    if d < b {
        assert(lines[d + 1].1 == lines[i].1);
    }
}

fn same_change(a: Option<bool>, b: Option<bool>) -> (r: bool)
    ensures
        r == (a == b),
{
    match (a, b) {
        (Some(x), Some(y)) => x == y,
        (None, None) => true,
        _ => false,
    }
}

/// Click one line, get its contiguous change block, rather than having to
/// drag-select it.
pub fn change_block(lines: &Vec<DiffLine>, i: usize) -> (r: (usize, usize))
    requires
        i < lines.len(),
    ensures
        is_block(lines.deep_view(), i as int, r.0 as int, r.1 as int),
{
    let ghost all = lines.deep_view();
    let kind = lines[i].1;
    assert(all[i as int].1 == kind);
    let mut a: usize = i;
    while a > 0 && same_change(lines[a - 1].1, kind)
        invariant
            all == lines.deep_view(),
            a <= i < lines.len(),
            all[i as int].1 == kind,
            forall|k: int| a <= k <= i ==> (#[trigger] all[k]).1 == kind,
        decreases a,
    {
        assert(all[a - 1].1 == lines@[a - 1].1);
        a -= 1;
    }
    assert(a > 0 ==> all[a - 1].1 == lines@[a - 1].1);
    let mut b: usize = i;
    while b < lines.len() - 1 && same_change(lines[b + 1].1, kind)
        invariant
            all == lines.deep_view(),
            a <= i <= b < lines.len(),
            all[i as int].1 == kind,
            forall|k: int| a <= k <= b ==> (#[trigger] all[k]).1 == kind,
        decreases lines.len() - b,
    {
        assert(all[b + 1].1 == lines@[b + 1].1);
        b += 1;
    }
    assert(b + 1 < lines.len() ==> all[b + 1].1 == lines@[b + 1].1);
    (a, b)
}

} // verus!
