//! Threads. One thread owns one worktree, which is what makes cross-thread
//! conflict structural rather than incidental.

use vstd::prelude::*;

use crate::model::actor::ActorId;
use crate::model::comment::CommentSet;

verus! {

#[derive(Clone, Copy, Debug, PartialEq, Eq, Hash, Structural)]
pub struct ThreadId(pub u32);

/// What a thread's agent is doing. `Conflicting` extends the vocabulary of the
/// status dot every thread already carries, rather than inventing a new
/// indicator.
#[derive(Clone, Copy, Debug, PartialEq, Eq, Structural)]
pub enum ThreadStatus {
    Completed,
    Running,
    WaitingForConfirmation,
    Error,
    Conflicting,
}

#[derive(Debug)]
pub struct Thread {
    pub id: ThreadId,
    pub title: String,
    pub project: String,
    pub status: ThreadStatus,
    /// `.delta/worktrees/<slug>` -- one per thread.
    pub worktree: String,
    pub branch: String,
    pub participants: Vec<ActorId>,
    pub added: u32,
    pub removed: u32,
    /// Turn counter. Pending comments ship at turn boundaries, so this is what
    /// conflict warnings and delivery batches key off.
    pub turn: u32,
    pub unread: bool,
    pub shared: bool,
}

#[verifier::ext_equal]
pub ghost struct ThreadModel {
    pub id: ThreadId,
    pub title: Seq<char>,
    pub project: Seq<char>,
    pub status: ThreadStatus,
    pub worktree: Seq<char>,
    pub branch: Seq<char>,
    pub participants: Seq<ActorId>,
    pub added: u32,
    pub removed: u32,
    pub turn: u32,
    pub unread: bool,
    pub shared: bool,
}

impl DeepView for Thread {
    type V = ThreadModel;

    open spec fn deep_view(&self) -> ThreadModel {
        ThreadModel {
            id: self.id,
            title: self.title@,
            project: self.project@,
            status: self.status,
            worktree: self.worktree@,
            branch: self.branch@,
            participants: self.participants@,
            added: self.added,
            removed: self.removed,
            turn: self.turn,
            unread: self.unread,
            shared: self.shared,
        }
    }
}

impl Clone for Thread {
    fn clone(&self) -> (r: Self)
        ensures
            r.deep_view() == self.deep_view(),
    {
        let r = Thread {
            id: self.id,
            title: self.title.clone(),
            project: self.project.clone(),
            status: self.status,
            worktree: self.worktree.clone(),
            branch: self.branch.clone(),
            participants: self.participants.clone(),
            added: self.added,
            removed: self.removed,
            turn: self.turn,
            unread: self.unread,
            shared: self.shared,
        };
        assert(r.participants@ =~= self.participants@);
        r
    }
}

pub struct ThreadState {
    pub thread: Thread,
    pub comments: CommentSet,
}

} // verus!
