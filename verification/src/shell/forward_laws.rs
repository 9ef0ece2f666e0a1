//! What handing things to other threads promises.

use vstd::prelude::*;

use crate::lists;
use crate::model::comment::{CommentId, Delivery};
use crate::model::transport::{EnvelopeModel, SendError};
use crate::seed;
use crate::shell::editing;
use crate::shell::forwarding;
use crate::shell::state::{Forwarding, ShellModel};
use crate::shell::sweep;
use crate::shell::threads::{CommentReplyModel, ProvenanceModel, ThreadUiModel, UiCommentModel};
use crate::shell::words;
use crate::text;

verus! {

/// A record quotes a note of up to 48 characters whole, a longer one by its first 48
/// and three dots, and speaks of a snippet where there is no note.
pub proof fn a_record_quotes_the_note(body: Seq<char>, more: Seq<char>)
    ensures
        0 < body.len() <= 48 ==> forwarding::excerpt_of(body) == body,
        body.len() == 48 && more.len() > 0 ==> forwarding::excerpt_of(body + more) == body + seq![
            '.',
            '.',
            '.',
        ],
        body.len() == 0 ==> forwarding::excerpt_of(body) == "a snippet"@,
{
    reveal_strlit("...");
    if body.len() == 48 {
        assert((body + more).take(48) =~= body);
        assert("..."@ =~= seq!['.', '.', '.']);
    }
}

/// Whether thread `from` holds these words on this anchor by this author, handed on from
/// a thread called `home`.
pub open spec fn holds_from(m: ShellModel, e: EnvelopeModel, home: Seq<char>) -> bool {
    exists|k: int|
        {
            let c = #[trigger] m.threads[e.from.0 as int].comments[k];
            &&& e.from.0 < m.threads.len()
            &&& 0 <= k < m.threads[e.from.0 as int].comments.len()
            &&& c.anchor == e.anchor
            &&& c.body == e.body
            &&& c.author == e.author.0
            &&& c.origin is Forwarded
            &&& c.origin->Forwarded_from_title == home
        }
}

/// A thread cannot send to itself, nor to one that is not there. An agent cannot send
/// home. Everything else goes through.
pub proof fn what_is_refused(m: ShellModel, e: EnvelopeModel)
    ensures
        ({
            let home = m.threads[e.to.0 as int].seed.title;
            let agent = seed::everyone()[e.sender.0 as int].agent;
            let loops = agent && (e.from_title == home || holds_from(m, e, home));
            &&& m.refusal(e) == Some(SendError::SameThread) <==> e.to == e.from
            &&& m.refusal(e) == Some(SendError::UnknownThread(e.to)) <==> e.to != e.from && e.to.0
                >= m.threads.len()
            &&& m.refusal(e) == Some(SendError::WouldLoop) <==> e.to != e.from && e.to.0
                < m.threads.len() && loops
            &&& m.refusal(e) is None <==> e.to != e.from && e.to.0 < m.threads.len() && !loops
        }),
{
    let home = m.threads[e.to.0 as int].seed.title;
    let comments = m.threads[e.from.0 as int].comments;
    if m.goes_home(e) {
        let k = choose|k: int|
            0 <= k < comments.len() && forwarding::came_from(#[trigger] comments[k], e, home);
        assert(m.threads[e.from.0 as int].comments[k] == comments[k]);
        assert(holds_from(m, e, home));
    }
    if holds_from(m, e, home) {
        let k = choose|k: int|
            {
                let c = #[trigger] m.threads[e.from.0 as int].comments[k];
                &&& e.from.0 < m.threads.len()
                &&& 0 <= k < m.threads[e.from.0 as int].comments.len()
                &&& c.anchor == e.anchor
                &&& c.body == e.body
                &&& c.author == e.author.0
                &&& c.origin is Forwarded
                &&& c.origin->Forwarded_from_title == home
            };
        assert(forwarding::came_from(comments[k], e, home));
    }
}

/// Whether a comment is what the envelope becomes in a thread.
pub open spec fn carries(
    c: UiCommentModel,
    e: EnvelopeModel,
    from: ThreadUiModel,
    to: ThreadUiModel,
) -> bool {
    &&& c.anchor == e.anchor
    &&& c.resolved == to.resolved_in(e.anchor)
    &&& c.body == e.body
    &&& c.author == e.author.0
    &&& c.mentions.len() == e.mentions.len()
    &&& forall|i: int| 0 <= i < e.mentions.len() ==> #[trigger] c.mentions[i] == e.mentions[i].0
    &&& c.origin == ProvenanceModel::Forwarded {
        from_title: from.seed.title,
        forwarded_by: e.sender.0 as usize,
        original_author: e.author.0 as usize,
    }
    &&& c.delivery == Delivery::Queued <==> to.agent_busy
        || seed::everyone()[e.sender.0 as int].agent
    &&& c.delivery == Delivery::Queued || c.delivery == Delivery::Pending
    &&& c.divergence is None
    &&& c.about is None
    &&& c.replies == Seq::<CommentReplyModel>::empty()
    &&& c.handle == words::slug_of(to.seed) + seq!['-'] + text::decimal(to.comments.len() + 1)
}

/// A delivery puts one comment more at the end of the recipient's thread, where what was
/// there stays as it was, and one record more at the end of the sender's. The thread it
/// went to is unread, the receipt says what became of it there, and nothing else changes.
pub proof fn a_delivery_adds_one_comment_and_one_record(m: ShellModel, e: EnvelopeModel)
    requires
        m.takes(e),
        m.refusal(e) is None,
    ensures
        ({
            let to = e.to.0 as int;
            let from = e.from.0 as int;
            let after = m.delivered(e);
            let was = m.threads[to];
            let now = after.threads[to];
            let c = now.comments[was.comments.len() as int];
            let sender = after.threads[from];
            let record = sender.sent[m.threads[from].sent.len() as int];
            &&& after == ShellModel { threads: after.threads, next_id: after.next_id, ..m }
            &&& after.threads.len() == m.threads.len()
            &&& after.next_id == m.next_id + 1
            &&& forall|i: int|
                0 <= i < m.threads.len() && i != to && i != from ==> #[trigger] after.threads[i]
                    == m.threads[i]
            &&& now == ThreadUiModel { comments: now.comments, unread: true, ..was }
            &&& now.comments.len() == was.comments.len() + 1
            &&& forall|k: int|
                0 <= k < was.comments.len() ==> #[trigger] now.comments[k] == was.comments[k]
            &&& c.id == m.next_id + 1
            &&& carries(c, e, m.threads[from], was)
            &&& sender == ThreadUiModel { sent: sender.sent, ..m.threads[from] }
            &&& sender.sent.len() == m.threads[from].sent.len() + 1
            &&& forall|k: int|
                0 <= k < m.threads[from].sent.len() ==> #[trigger] sender.sent[k]
                    == m.threads[from].sent[k]
            &&& record.to == e.to.0
            &&& record.comment == c.id
            &&& record.excerpt == forwarding::excerpt_of(e.body)
            &&& m.receipt(e).comment == CommentId(c.id)
            &&& m.receipt(e).resolution == c.resolved
            &&& m.receipt(e).delivery == c.delivery
        }),
{
    let to = e.to.0 as int;
    let was = m.threads[to];
    assert(was.next_handle() =~= words::slug_of(was.seed) + seq!['-'] + text::decimal(
        was.comments.len() + 1,
    ));
    let after = m.delivered(e);
    assert(after.threads[to] =~= ThreadUiModel {
        comments: after.threads[to].comments,
        unread: true,
        ..was
    });
}

/// Posting closes the list of threads; what is refused changes nothing else.
pub proof fn posting_closes_the_list(m: ShellModel, e: EnvelopeModel)
    ensures
        m.posted(e).forwarding == Forwarding::Idle,
        m.refusal(e) is Some ==> m.posted(e) == (ShellModel { forwarding: Forwarding::Idle, ..m }),
        m.refusal(e) is None ==> m.posted(e) == (ShellModel {
            forwarding: Forwarding::Idle,
            ..m.delivered(e)
        }),
{
}

/// Whether an envelope is from whoever is at the window, from the current thread, to
/// thread `to`.
pub open spec fn addressed(e: EnvelopeModel, m: ShellModel, to: usize) -> bool {
    &&& e.from.0 == m.active
    &&& e.to.0 == to
    &&& e.sender.0 == seed::ME
    &&& e.from_title == m.current().seed.title
}

/// Handing a comment on sends it as it is: its author, anchor, words and mentions.
/// A comment that is not there, or one for the thread it is in, goes nowhere.
pub proof fn a_comment_is_handed_on_as_it_is(m: ShellModel, id: u32, k: int, to: usize) -> (e:
    EnvelopeModel)
    requires
        m.well_formed(),
        to <= u32::MAX,
        0 <= k < m.current().comments.len(),
        m.current().comments[k].id == id,
    ensures
        to == m.active ==> m.forwarded(Forwarding::Comment(id), to) == m,
        to != m.active ==> m.forwarded(Forwarding::Comment(id), to) == m.posted(e),
        addressed(e, m, to),
        e.author.0 == m.current().comments[k].author,
        e.anchor == m.current().comments[k].anchor,
        e.body == m.current().comments[k].body,
        e.mentions.len() == m.current().comments[k].mentions.len(),
        forall|i: int|
            0 <= i < e.mentions.len() ==> (#[trigger] e.mentions[i]).0
                == m.current().comments[k].mentions[i],
{
    let c = m.current().comments[k];
    let p = |c: UiCommentModel| c.id == id;
    assert forall|j: int| 0 <= j < k implies !p(#[trigger] m.current().comments[j]) by {
        assert(m.threads[m.active as int].comments[j].id != m.threads[m.active as int].comments[k].id);
    }
    lists::lemma_is_position(m.current().comments, p, k);
    let e = m.envelope(to, c.author, c.anchor, c.body, c.mentions);
    assert(c.portable());
    assert forall|i: int| 0 <= i < e.mentions.len() implies (#[trigger] e.mentions[i]).0
        == c.mentions[i] by {
        assert(c.mentions[i] <= u32::MAX);
    }
    assert(seed::ME <= u32::MAX);
    e
}

/// Handing the selection on sends the span with what was typed about it, and empties
/// the composer. A reply has no span, so there is nothing to send; nor is there to the
/// thread it is in, or with nothing selected.
pub proof fn a_selection_is_handed_on_with_its_note(m: ShellModel, to: usize) -> (e: EnvelopeModel)
    requires
        m.well_formed(),
        to <= u32::MAX,
    ensures
        ({
            let after = m.forwarded(Forwarding::Selection, to);
            let typed = text::trimmed(m.composer.content);
            let goes = to != m.active && m.target is Some && !(m.target->0 is Reply);
            &&& !goes ==> after == m
            &&& goes ==> {
                &&& addressed(e, m, to)
                &&& e.author.0 == seed::ME
                &&& editing::target_anchor(m.current(), m.target->0) == Some(e.anchor)
                &&& e.body == typed
                &&& e.mentions.len() == words::mentioned(text::words(typed)).len()
                &&& forall|i: int|
                    0 <= i < e.mentions.len() ==> (#[trigger] e.mentions[i]).0 == words::mentioned(
                        text::words(typed),
                    )[i]
                &&& after == (ShellModel {
                    target: None,
                    composer: m.composer.with_text(Seq::empty()),
                    picker_dismissed: false,
                    mention_sel: 0,
                    ..m
                }).posted(e)
            }
        }),
{
    let typed = m.note();
    let target = m.target->0;
    let e = m.envelope(
        to,
        seed::ME,
        editing::target_anchor(m.current(), target)->0,
        typed,
        words::mentioned(text::words(typed)),
    );
    sweep::lemma_mentions_fit(typed);
    assert forall|i: int| 0 <= i < e.mentions.len() implies (#[trigger] e.mentions[i]).0
        == words::mentioned(text::words(typed))[i] by {
        assert(words::mentioned(text::words(typed))[i] <= u32::MAX);
    }
    e
}

/// With nothing to hand on, nothing happens.
pub proof fn nothing_is_handed_on_from_nowhere(m: ShellModel, id: u32, to: usize)
    ensures
        m.forwarded(Forwarding::Idle, to) == m,
        (forall|k: int|
            0 <= k < m.current().comments.len() ==> (#[trigger] m.current().comments[k]).id != id)
            ==> m.forwarded(Forwarding::Comment(id), to) == m,
{
    lists::a_place_is_the_first(m.current().comments, |c: UiCommentModel| c.id == id, 0);
}

} // verus!
