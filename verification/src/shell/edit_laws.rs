//! What composing and committing promise.

use vstd::prelude::*;

use crate::lists;
use crate::model::anchor::{AnchorModel, BlockKind};
use crate::model::comment::Delivery;
use crate::seed;
use crate::shell::editing;
use crate::shell::state::{Forwarding, ShellModel, TurnModel};
use crate::shell::threads::{
    CommentReplyModel, ProvenanceModel, Target, ThreadUiModel, UiCommentModel,
};
use crate::shell::words;
use crate::text;

verus! {

/// Whether all lines from `i` to `j` have the same change.
pub open spec fn run_between(
    lines: Seq<(u32, Option<bool>, Seq<char>)>,
    i: int,
    j: int,
) -> bool {
    &&& 0 <= i < lines.len()
    &&& 0 <= j < lines.len()
    &&& forall|k: int|
        (i <= k <= j || j <= k <= i) ==> (#[trigger] lines[k]).1 == lines[i].1
}

/// The block of a line is the lines one gets to from it without the change changing.
pub proof fn a_change_block_is_everything_in_reach(
    lines: Seq<(u32, Option<bool>, Seq<char>)>,
    i: int,
    a: int,
    b: int,
    j: int,
)
    requires
        editing::is_block(lines, i, a, b),
    ensures
        a <= j <= b <==> run_between(lines, i, j),
{
    if run_between(lines, i, j) {
        if j < a {
            assert(lines[a - 1].1 == lines[i].1);
        }
        if b < j {
            assert(lines[b + 1].1 == lines[i].1);
        }
    }
}

/// Pointing the composer somewhere empties it and closes what was open, and changes
/// nothing else.
pub proof fn beginning_starts_afresh(m: ShellModel, target: Target)
    ensures
        m.begun(target) == (ShellModel {
            target: Some(target),
            forwarding: Forwarding::Idle,
            composer: m.composer.with_text(Seq::empty()),
            picker_dismissed: false,
            mention_sel: 0,
            ..m
        }),
{
}

/// What a target points at: one block of the transcript, or a run of lines of the diff
/// with both its ends, taken as they read, as a span chosen loosely.
pub proof fn a_target_is_anchored_where_it_points(thread: ThreadUiModel, a: usize, b: usize, id: u32)
    requires
        a <= b < u32::MAX,
    ensures
        editing::target_anchor(thread, Target::Reply(id)) is None,
        ({
            let prose = editing::target_anchor(thread, Target::Prose(a))->0;
            let said = thread.prose_snapshot().lines;
            &&& editing::target_anchor(thread, Target::Prose(a)) is Some
            &&& prose.file == thread.prose_path()
            &&& prose.kind == BlockKind::Paragraph
            &&& prose.captured_lines.start == a
            &&& prose.captured_lines.end == a + 1
            &&& prose.auto_selected
            &&& a < said.len() ==> prose.content == said[a as int]
        }),
        ({
            let diff = editing::target_anchor(thread, Target::Diff(a, b))->0;
            let lines = thread.diff_snapshot().lines;
            &&& editing::target_anchor(thread, Target::Diff(a, b)) is Some
            &&& diff.file == thread.seed.diff_dir + thread.seed.diff_file
            &&& diff.kind == BlockKind::DiffHunk
            &&& diff.captured_lines.start == a
            &&& diff.captured_lines.end == b + 1
            &&& diff.auto_selected
            &&& b < lines.len() ==> diff.content == text::joined(
                lines.subrange(a as int, b + 1),
                seq!['\n'],
            )
        }),
{
    let said = thread.prose_snapshot().lines;
    if a < said.len() {
        assert(said.subrange(a as int, a + 1) =~= seq![said[a as int]]);
        text::joining_puts_the_separator_between(
            seq![said[a as int]],
            Seq::empty(),
            seq!['\n'],
            said[a as int],
        );
    }
}

/// Whether a comment is what was typed, said of the anchor by whoever is at the window.
pub open spec fn says(c: UiCommentModel, m: ShellModel, anchor: AnchorModel) -> bool {
    let thread = m.current();
    let typed = text::trimmed(m.composer.content);
    &&& c.id == m.next_id + 1
    &&& c.handle == words::slug_of(thread.seed) + seq!['-'] + text::decimal(
        thread.comments.len() + 1,
    )
    &&& c.anchor == anchor
    &&& c.resolved == thread.resolved_in(anchor)
    &&& c.body == typed
    &&& c.author == seed::ME
    &&& c.mentions == words::mentioned(text::words(typed))
    &&& c.origin == ProvenanceModel::Local
    &&& c.divergence is None
    &&& c.about is None
    &&& c.replies == Seq::<CommentReplyModel>::empty()
}

/// With nothing typed but white space, or nowhere to put it, Enter does nothing.
pub proof fn nothing_is_committed_without_words_or_place(m: ShellModel)
    requires
        text::blank(m.composer.content) || m.target is None,
    ensures
        m.committed() == (m, None::<TurnModel>),
{
    reveal(ShellModel::committed);
    if text::blank(m.composer.content) {
        text::blank_is_trimmed_away(m.composer.content);
    }
}

/// Enter puts what was typed at the end of the current thread, on what the composer was
/// pointed at, and empties the composer. If the agent is idle, that goes to it at once
/// with everything pending; if it is mid-turn, it is pending and no turn starts.
pub proof fn a_note_lands_at_the_end_of_its_thread(m: ShellModel, j: int, k: int)
    requires
        m.active < m.threads.len(),
        !text::blank(m.composer.content),
        m.target is Some,
        !(m.target->0 is Reply),
        m.next_id < u32::MAX,
        m.current().agent_busy || m.current().turn < u32::MAX,
    ensures
        ({
            let (after, turn) = m.committed();
            let was = m.current();
            let now = after.current();
            let n = was.comments.len() as int;
            let c = now.comments[n];
            &&& after == ShellModel {
                threads: after.threads,
                next_id: (m.next_id + 1) as u32,
                target: None,
                composer: m.composer.with_text(Seq::empty()),
                picker_dismissed: false,
                mention_sel: 0,
                ..m
            }
            &&& after.threads.len() == m.threads.len()
            &&& 0 <= j < m.threads.len() && j != m.active ==> after.threads[j] == m.threads[j]
            &&& now.comments.len() == n + 1
            &&& editing::target_anchor(was, m.target->0) is Some
            &&& says(c, m, editing::target_anchor(was, m.target->0)->0)
            &&& was.agent_busy ==> {
                &&& turn is None
                &&& c.delivery == Delivery::Pending
                &&& now == ThreadUiModel { comments: now.comments, ..was }
                &&& 0 <= k < n ==> now.comments[k] == was.comments[k]
            }
            &&& !was.agent_busy ==> {
                &&& turn is Some
                &&& turn->0.thread == m.active
                &&& c.delivery == Delivery::Delivered { turn: was.turn }
                &&& now.agent_busy
                &&& now.turn == was.turn + 1
                &&& now == ThreadUiModel {
                    comments: now.comments,
                    turn: now.turn,
                    agent_busy: true,
                    ..was
                }
                &&& 0 <= k < n ==> if was.comments[k].delivery == Delivery::Pending {
                    now.comments[k] == UiCommentModel {
                        delivery: Delivery::Delivered { turn: was.turn },
                        ..was.comments[k]
                    }
                } else {
                    now.comments[k] == was.comments[k]
                }
                &&& turn->0.replies.len() > 0
                &&& turn->0.replies.last().in_reply_to == c.id
                &&& turn->0.replies.last().quote == c.body
            }
        }),
{
    reveal(ShellModel::committed);
    let was = m.current();
    let typed = m.note();
    lemma_ink_is_left(m.composer.content);
    assert(was.next_handle() =~= words::slug_of(was.seed) + seq!['-'] + text::decimal(
        was.comments.len() + 1,
    ));
    let target = m.target->0;
    let comment = m.written(editing::target_anchor(was, target)->0);
    let landed = ShellModel {
        target: None,
        ..m.with_comment(m.active as int, comment).with_nothing_typed()
    };
    assert(landed.current().comments == was.comments.push(comment));
    let (after, turn) = m.committed();
    if was.agent_busy {
        assert(after.threads =~= m.threads.update(m.active as int, after.current()));
    } else {
        assert(after.threads =~= m.threads.update(m.active as int, after.current()));
    }
}

proof fn lemma_ink_is_left(s: Seq<char>)
    requires
        !text::blank(s),
    ensures
        text::trimmed(s).len() > 0,
{
    text::blank_is_trimmed_away(s);
}

/// Enter on a reply puts what was typed behind the earlier answers to the comment, with
/// the next number under the comment's own handle; nothing goes to the agent, and
/// nothing else that was said changes.
pub proof fn a_reply_joins_the_comment_it_answers(m: ShellModel, parent: u32, k: int)
    requires
        m.active < m.threads.len(),
        !text::blank(m.composer.content),
        m.target == Some(Target::Reply(parent)),
        0 <= k < m.current().comments.len(),
        m.current().comments[k].id == parent,
        forall|l: int| 0 <= l < k ==> (#[trigger] m.current().comments[l]).id != parent,
    ensures
        ({
            let (after, turn) = m.committed();
            let was = m.current().comments[k];
            let now = after.current().comments[k];
            let typed = text::trimmed(m.composer.content);
            let reply = now.replies[was.replies.len() as int];
            &&& turn is None
            &&& after == ShellModel {
                threads: after.threads,
                target: None,
                composer: m.composer.with_text(Seq::empty()),
                picker_dismissed: false,
                mention_sel: 0,
                ..m
            }
            &&& after.threads == m.threads.update(m.active as int, after.current())
            &&& after.current() == ThreadUiModel {
                comments: m.current().comments.update(k, now),
                ..m.current()
            }
            &&& now == UiCommentModel { replies: now.replies, ..was }
            &&& now.replies.len() == was.replies.len() + 1
            &&& forall|l: int|
                0 <= l < was.replies.len() ==> #[trigger] now.replies[l] == was.replies[l]
            &&& reply.body == typed
            &&& reply.author == seed::ME
            &&& reply.mentions == words::mentioned(text::words(typed))
            &&& reply.handle == was.handle + seq!['.'] + text::decimal(was.replies.len() + 1)
        }),
{
    reveal(ShellModel::committed);
    lemma_ink_is_left(m.composer.content);
    let p = |c: UiCommentModel| c.id == parent;
    lists::lemma_is_position(m.current().comments, p, k);
    let was = m.current().comments[k];
    assert(was.handle.push('.') + text::decimal(was.replies.len() + 1) =~= was.handle + seq!['.']
        + text::decimal(was.replies.len() + 1));
    let after = m.committed().0;
    assert(after.threads =~= m.threads.update(m.active as int, after.current()));
}

/// A reply to a comment that is gone empties the composer and changes nothing else.
pub proof fn a_reply_to_nothing_is_dropped(m: ShellModel, parent: u32)
    requires
        !text::blank(m.composer.content),
        m.target == Some(Target::Reply(parent)),
        forall|l: int|
            0 <= l < m.current().comments.len() ==> (#[trigger] m.current().comments[l]).id
                != parent,
    ensures
        m.committed() == (
            (ShellModel {
                target: None,
                composer: m.composer.with_text(Seq::empty()),
                picker_dismissed: false,
                mention_sel: 0,
                ..m
            }),
            None::<TurnModel>,
        ),
{
    reveal(ShellModel::committed);
    lemma_ink_is_left(m.composer.content);
    lists::a_place_is_the_first(m.current().comments, |c: UiCommentModel| c.id == parent, 0);
}

} // verus!
