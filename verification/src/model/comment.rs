//! Comments.
//!
//! A comment is anchored content plus provenance plus a delivery decision.
//! It is the only object that crosses a thread boundary, so it carries
//! everything a receiving thread needs to render it without trusting the
//! sender's line numbers.

use vstd::prelude::*;

use crate::lists;
use crate::model::actor::ActorId;
use crate::model::anchor::{AnchorModel, PortableAnchor};
use crate::model::thread::ThreadId;

verus! {

#[derive(Clone, Copy, Debug, PartialEq, Eq, Hash, Structural)]
pub struct CommentId(pub u32);

/// Where a comment came from.
///
/// Handoff is direct-injection: a comment sent from another thread lands in
/// the recipient's comment set with no accept step. That makes provenance
/// load-bearing rather than decorative -- it is the only thing distinguishing
/// a teammate's deliberate note from another thread's spillover.
#[derive(Debug)]
pub enum Origin {
    Local,
    Forwarded {
        from_thread: ThreadId,
        from_thread_title: String,
        /// Who wrote it originally, preserved across the hop.
        original_author: ActorId,
        /// Who pushed it here. Often but not always the same person.
        forwarded_by: ActorId,
    },
}

#[verifier::ext_equal]
pub ghost enum OriginModel {
    Local,
    Forwarded {
        from_thread: ThreadId,
        from_thread_title: Seq<char>,
        original_author: ActorId,
        forwarded_by: ActorId,
    },
}

impl DeepView for Origin {
    type V = OriginModel;

    open spec fn deep_view(&self) -> OriginModel {
        match self {
            Origin::Local => OriginModel::Local,
            Origin::Forwarded { from_thread, from_thread_title, original_author, forwarded_by } =>
            OriginModel::Forwarded {
                from_thread: *from_thread,
                from_thread_title: from_thread_title@,
                original_author: *original_author,
                forwarded_by: *forwarded_by,
            },
        }
    }
}

impl Clone for Origin {
    fn clone(&self) -> (r: Self)
        ensures
            r.deep_view() == self.deep_view(),
    {
        match self {
            Origin::Local => Origin::Local,
            Origin::Forwarded { from_thread, from_thread_title, original_author, forwarded_by } =>
            Origin::Forwarded {
                from_thread: *from_thread,
                from_thread_title: from_thread_title.clone(),
                original_author: *original_author,
                forwarded_by: *forwarded_by,
            },
        }
    }
}

impl Origin {
    pub fn is_foreign(&self) -> (r: bool)
        ensures
            r == (self.deep_view() is Forwarded),
    {
        match self {
            Origin::Local => false,
            Origin::Forwarded { .. } => true,
        }
    }
}

/// Whether this comment will be handed to the model on the next turn.
///
/// Comments accumulate as pending and ship with the next user prompt. An
/// injected comment can be withheld before the next turn fires, which is the
/// only brake on one thread steering another thread's agent.
///
/// `Queued` exists so nobody has to make this decision by hand. A comment that
/// arrives while the recipient's agent is mid-turn waits for the turn boundary
/// and then arms itself. Someone who spots a bug and wants to note it in
/// another thread should not have to reason about whether that thread is busy;
/// that is the system's job, not theirs.
#[derive(Clone, Copy, Debug, PartialEq, Eq, Structural)]
pub enum Delivery {
    /// Landed mid-turn. Promotes to `Pending` when the recipient's turn ends --
    /// unless an agent handed it on: then it waits for a person to release it.
    Queued,
    /// Put here by the workspace rather than by a person, and waiting on
    /// someone in *this* thread to approve it. Unlike `Queued` it never
    /// resolves itself -- a turn boundary must not quietly approve something
    /// nobody agreed to.
    Proposed,
    Pending,
    Withheld,
    Delivered { turn: u32 },
}

/// A reply that references its parent by id, so replies stay navigable and
/// countable.
#[derive(Debug)]
pub struct Reply {
    pub author: ActorId,
    pub body: String,
    pub in_reply_to: CommentId,
}

#[verifier::ext_equal]
pub ghost struct ReplyModel {
    pub author: ActorId,
    pub body: Seq<char>,
    pub in_reply_to: CommentId,
}

impl DeepView for Reply {
    type V = ReplyModel;

    open spec fn deep_view(&self) -> ReplyModel {
        ReplyModel { author: self.author, body: self.body@, in_reply_to: self.in_reply_to }
    }
}

impl Clone for Reply {
    fn clone(&self) -> (r: Self)
        ensures
            r.deep_view() == self.deep_view(),
    {
        Reply { author: self.author, body: self.body.clone(), in_reply_to: self.in_reply_to }
    }
}

#[derive(Debug)]
pub struct Comment {
    pub id: CommentId,
    pub anchor: PortableAnchor,
    pub body: String,
    pub author: ActorId,
    pub origin: Origin,
    pub delivery: Delivery,
    pub replies: Vec<Reply>,
    pub resolved: bool,
    /// Logical tick. No wall clock: it would make the workspace
    /// nondeterministic.
    pub created_at: u64,
}

#[verifier::ext_equal]
pub ghost struct CommentModel {
    pub id: CommentId,
    pub anchor: AnchorModel,
    pub body: Seq<char>,
    pub author: ActorId,
    pub origin: OriginModel,
    pub delivery: Delivery,
    pub replies: Seq<ReplyModel>,
    pub resolved: bool,
    pub created_at: u64,
}

impl DeepView for Comment {
    type V = CommentModel;

    open spec fn deep_view(&self) -> CommentModel {
        CommentModel {
            id: self.id,
            anchor: self.anchor.deep_view(),
            body: self.body@,
            author: self.author,
            origin: self.origin.deep_view(),
            delivery: self.delivery,
            replies: self.replies.deep_view(),
            resolved: self.resolved,
            created_at: self.created_at,
        }
    }
}

impl Clone for Comment {
    fn clone(&self) -> (r: Self)
        ensures
            r.deep_view() == self.deep_view(),
    {
        let mut replies: Vec<Reply> = Vec::new();
        let mut i: usize = 0;
        while i < self.replies.len()
            invariant
                i <= self.replies.len(),
                replies.deep_view() == self.replies.deep_view().take(i as int),
            decreases self.replies.len() - i,
        {
            let ghost before = replies.deep_view();
            replies.push(self.replies[i].clone());
            assert(replies.deep_view() =~= before.push(self.replies@[i as int].deep_view()));
            i += 1;
            assert(self.replies.deep_view().take(i as int) =~= replies.deep_view());
        }
        assert(replies.deep_view() =~= self.replies.deep_view());
        Comment {
            id: self.id,
            anchor: self.anchor.clone(),
            body: self.body.clone(),
            author: self.author,
            origin: self.origin.clone(),
            delivery: self.delivery,
            replies,
            resolved: self.resolved,
            created_at: self.created_at,
        }
    }
}

impl CommentModel {
    /// A comment written where it stands: local, pending, unanswered.
    pub open spec fn written(
        id: CommentId,
        anchor: AnchorModel,
        body: Seq<char>,
        author: ActorId,
        created_at: u64,
    ) -> CommentModel {
        CommentModel {
            id,
            anchor,
            body,
            author,
            origin: OriginModel::Local,
            delivery: Delivery::Pending,
            replies: Seq::empty(),
            resolved: false,
            created_at,
        }
    }

    /// The copy that lands in another thread.
    pub open spec fn forwarded(
        self,
        new_id: CommentId,
        from_thread: ThreadId,
        from_thread_title: Seq<char>,
        forwarded_by: ActorId,
        created_at: u64,
    ) -> CommentModel {
        CommentModel {
            origin: OriginModel::Forwarded {
                from_thread,
                from_thread_title,
                original_author: self.author,
                forwarded_by,
            },
            ..CommentModel::written(new_id, self.anchor, self.body, self.author, created_at)
        }
    }

    /// Whether it ships with the next prompt.
    pub open spec fn ships(self) -> bool {
        self.delivery == Delivery::Pending && !self.resolved
    }
}

/// However often a comment is handed on, its author, its anchor and its words
/// stay those of the comment first written, and its provenance names that
/// author.
pub proof fn forwarding_preserves_authorship(
    comment: CommentModel,
    first: (CommentId, ThreadId, Seq<char>, ActorId, u64),
    second: (CommentId, ThreadId, Seq<char>, ActorId, u64),
)
    ensures
        ({
            let once = comment.forwarded(first.0, first.1, first.2, first.3, first.4);
            let twice = once.forwarded(second.0, second.1, second.2, second.3, second.4);
            &&& twice.author == comment.author
            &&& twice.anchor == comment.anchor
            &&& twice.body == comment.body
            &&& twice.origin matches OriginModel::Forwarded { original_author, forwarded_by, .. }
                && original_author == comment.author && forwarded_by == second.3
        }),
{
}

impl Comment {
    pub fn new(
        id: CommentId,
        anchor: PortableAnchor,
        body: &str,
        author: ActorId,
        created_at: u64,
    ) -> (r: Self)
        ensures
            r.deep_view() == CommentModel::written(
                id,
                anchor.deep_view(),
                body@,
                author,
                created_at,
            ),
    {
        let replies: Vec<Reply> = Vec::new();
        assert(replies.deep_view() =~= Seq::<ReplyModel>::empty());
        Self {
            id,
            anchor,
            body: body.to_owned(),
            author,
            origin: Origin::Local,
            delivery: Delivery::Pending,
            replies,
            resolved: false,
            created_at,
        }
    }

    /// Produce the copy of this comment that lands in another thread.
    ///
    /// The anchor travels verbatim and is re-resolved on arrival against the
    /// recipient's own snapshot; line numbers are deliberately not translated
    /// here, because the sender has no view of the recipient's worktree.
    pub fn forward(
        &self,
        new_id: CommentId,
        from_thread: ThreadId,
        from_thread_title: &str,
        forwarded_by: ActorId,
        created_at: u64,
    ) -> (r: Comment)
        ensures
            r.deep_view() == self.deep_view().forwarded(
                new_id,
                from_thread,
                from_thread_title@,
                forwarded_by,
                created_at,
            ),
    {
        let replies: Vec<Reply> = Vec::new();
        assert(replies.deep_view() =~= Seq::<ReplyModel>::empty());
        Comment {
            id: new_id,
            anchor: self.anchor.clone(),
            body: self.body.clone(),
            author: self.author,
            origin: Origin::Forwarded {
                from_thread,
                from_thread_title: from_thread_title.to_owned(),
                original_author: self.author,
                forwarded_by,
            },
            // Injected comments arrive pending; the recipient can withhold
            // before the next turn.
            delivery: Delivery::Pending,
            replies,
            resolved: false,
            created_at,
        }
    }
}

/// A thread's comments.
#[derive(Debug)]
pub struct CommentSet {
    pub comments: Vec<Comment>,
    /// The last id that was handed out.
    pub next_id: u32,
}

/// The comments that ship with the next prompt, in order.
pub open spec fn shipping(comments: Seq<CommentModel>) -> Seq<CommentModel>
    decreases comments.len(),
{
    if comments.len() == 0 {
        Seq::empty()
    } else if comments.last().ships() {
        shipping(comments.drop_last()).push(comments.last())
    } else {
        shipping(comments.drop_last())
    }
}

/// The batch holds the comments that are pending and unresolved, and no other:
/// nothing queued, proposed, withheld or already delivered is in it.
pub proof fn the_batch_is_what_ships(comments: Seq<CommentModel>)
    ensures
        forall|c: CommentModel|
            #[trigger] shipping(comments).contains(c) <==> comments.contains(c) && c.ships(),
    decreases comments.len(),
{
    if comments.len() > 0 {
        let front = comments.drop_last();
        the_batch_is_what_ships(front);
        assert forall|c: CommentModel| #[trigger] shipping(comments).contains(c)
            <==> comments.contains(c) && c.ships() by {
            let batch = shipping(comments);
            let rest = shipping(front);
            if batch.contains(c) {
                let i = choose|i: int| 0 <= i < batch.len() && batch[i] == c;
                if i < rest.len() {
                    assert(rest[i] == c);
                    assert(rest.contains(c));
                    let k = choose|k: int| 0 <= k < front.len() && front[k] == c;
                    assert(comments[k] == c);
                } else {
                    assert(comments[comments.len() - 1] == c);
                }
            }
            if comments.contains(c) && c.ships() {
                let k = choose|k: int| 0 <= k < comments.len() && comments[k] == c;
                if k < front.len() {
                    assert(front[k] == c);
                    assert(rest.contains(c));
                    let i = choose|i: int| 0 <= i < rest.len() && rest[i] == c;
                    assert(batch[i] == c);
                } else {
                    assert(batch[batch.len() - 1] == c);
                }
            }
        }
    }
}

impl Default for CommentSet {
    fn default() -> (r: Self)
        ensures
            r.all() == Seq::<CommentModel>::empty(),
            r.last_id() == 0,
    {
        let comments: Vec<Comment> = Vec::new();
        assert(comments.deep_view() =~= Seq::<CommentModel>::empty());
        CommentSet { comments, next_id: 0 }
    }
}

impl CommentSet {
    /// The last id that was handed out.
    pub open spec fn last_id(&self) -> u32 {
        self.next_id
    }

    /// The comments, in the order they came.
    pub open spec fn all(&self) -> Seq<CommentModel> {
        self.comments.deep_view()
    }

    /// Hands out an id. Ids ascend from 1, so none comes twice.
    pub fn alloc_id(&mut self) -> (r: CommentId)
        requires
            old(self).last_id() < u32::MAX,
        ensures
            r.0 == old(self).last_id() + 1,
            final(self).last_id() == r.0,
            final(self).all() == old(self).all(),
    {
        self.next_id += 1;
        CommentId(self.next_id)
    }

    pub fn insert(&mut self, comment: Comment)
        ensures
            final(self).all() == old(self).all().push(comment.deep_view()),
            final(self).last_id() == old(self).last_id(),
    {
        self.comments.push(comment);
        assert(self.all() =~= old(self).all().push(comment.deep_view()));
    }

    /// The first comment with that id, to change in place.
    pub fn get_mut(&mut self, id: CommentId) -> (r: Option<&mut Comment>)
        ensures
            final(self).last_id() == old(self).last_id(),
            match r {
                Some(c) => exists|i: int|
                    {
                        &&& 0 <= i < old(self).all().len()
                        &&& #[trigger] old(self).all()[i] == c.deep_view()
                        &&& c.id == id
                        &&& forall|k: int|
                            0 <= k < i ==> (#[trigger] old(self).all()[k]).id != id
                        &&& final(self).all() == old(self).all().update(i, final(c).deep_view())
                    },
                None => {
                    &&& forall|k: int|
                        0 <= k < old(self).all().len() ==> (#[trigger] old(self).all()[k]).id != id
                    &&& final(self).all() == old(self).all()
                },
            },
    {
        let n = self.comments.len();
        let mut i: usize = 0;
        while i < n
            invariant
                *self == *old(self),
                n == self.comments.len(),
                i <= n,
                forall|k: int| 0 <= k < i ==> (#[trigger] self.comments@[k]).id != id,
            decreases n - i,
        {
            if self.comments[i].id == id {
                assert(old(self).all()[i as int] == self.comments@[i as int].deep_view());
                return Some(&mut self.comments[i]);
            }
            i += 1;
        }
        None
    }

    /// The batch that would ship with the next prompt.
    pub fn pending(&self) -> (r: Vec<&Comment>)
        ensures
            r.deep_view() == shipping(self.all()),
    {
        let ghost all = self.comments.deep_view();
        let mut out: Vec<&Comment> = Vec::new();
        let mut i: usize = 0;
        assert(out.deep_view() =~= shipping(all.take(0)));
        while i < self.comments.len()
            invariant
                all == self.comments.deep_view(),
                i <= self.comments.len(),
                out.deep_view() == shipping(all.take(i as int)),
            decreases self.comments.len() - i,
        {
            let c = &self.comments[i];
            let ghost before = out.deep_view();
            assert(all.take(i + 1).drop_last() =~= all.take(i as int));
            if c.delivery == Delivery::Pending && !c.resolved {
                out.push(c);
                assert(out.deep_view() =~= before.push(c.deep_view()));
            }
            i += 1;
        }
        assert(all.take(all.len() as int) =~= all);
        out
    }

    pub fn pending_count(&self) -> (r: usize)
        ensures
            r == shipping(self.all()).len(),
    {
        let batch = self.pending();
        assert(batch.deep_view().len() == batch.len());
        batch.len()
    }
}

// ------------------------------------------------------------------- laws --

/// The batch is every comment that is pending and not resolved, once and in the order
/// they came.
pub proof fn a_batch_keeps_the_order(comments: Seq<CommentModel>)
    ensures
        lists::picks(
            shipping(comments),
            comments.len() as int,
            |k: int| comments[k].delivery == Delivery::Pending && !comments[k].resolved,
            |k: int| comments[k],
        ),
{
    let n = comments.len() as int;
    let out = |k: int| shipping(comments.take(k));
    let pick = |k: int| comments[k].delivery == Delivery::Pending && !comments[k].resolved;
    let make = |k: int| comments[k];
    assert(comments.take(0) =~= Seq::<CommentModel>::empty());
    assert(out(0) =~= Seq::<CommentModel>::empty());
    assert forall|k: int| 0 <= k < n implies #[trigger] lists::picks_next(out, k, pick, make) by {
        assert(comments.take(k + 1).drop_last() =~= comments.take(k));
        assert(comments.take(k + 1).last() == comments[k]);
    }
    lists::lemma_picks(out, n, pick, make);
    assert(comments.take(n) =~= comments);
}

/// A comment starts out local, pending, unanswered and unresolved, and says what it was
/// given. A copy for another thread starts out as a comment there does, whatever became
/// of the first, but says where it came from, who wrote it and who handed it on.
pub proof fn a_copy_starts_afresh(
    comment: CommentModel,
    id: CommentId,
    from: ThreadId,
    title: Seq<char>,
    by: ActorId,
    at: u64,
)
    ensures
        ({
            let c = CommentModel::written(id, comment.anchor, comment.body, comment.author, at);
            &&& c.id == id && c.anchor == comment.anchor && c.body == comment.body && c.author
                == comment.author && c.created_at == at
            &&& c.origin == OriginModel::Local
            &&& c.delivery == Delivery::Pending
            &&& c.replies == Seq::<ReplyModel>::empty()
            &&& !c.resolved
        }),
        ({
            let c = comment.forwarded(id, from, title, by, at);
            &&& c.id == id && c.anchor == comment.anchor && c.body == comment.body && c.author
                == comment.author && c.created_at == at
            &&& c.origin == OriginModel::Forwarded {
                from_thread: from,
                from_thread_title: title,
                original_author: comment.author,
                forwarded_by: by,
            }
            &&& c.delivery == Delivery::Pending
            &&& c.replies == Seq::<ReplyModel>::empty()
            &&& !c.resolved
        }),
{
}

} // verus!
