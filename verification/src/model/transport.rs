//! The seam a real backend plugs into.
//!
//! Sending a comment to another thread is the one operation that will not stay
//! in-process. Today the recipient is a `Vec` in the same window; tomorrow it is
//! another machine, and later it is an agent doing the sending rather than a
//! person. So it is expressed as a trait with an explicit envelope and receipt
//! rather than as a method that reaches into the other thread's state.
//!
//! Two things are deliberately *returned* rather than assumed by the sender:
//! where the anchor landed, and whether the comment is armed. Only the
//! recipient can answer either -- the sender cannot see the other worktree, and
//! does not know whether that agent is mid-turn.

use vstd::prelude::*;

use crate::model::actor::ActorId;
use crate::model::anchor::{AnchorModel, PortableAnchor, Resolution};
use crate::model::comment::{CommentId, Delivery};
use crate::model::thread::ThreadId;
use crate::text;

verus! {

/// One thing handed from one thread to another.
#[derive(Debug)]
pub struct Envelope {
    pub from: ThreadId,
    pub to: ThreadId,
    /// Who pushed it. Often, but not always, the author.
    pub sender: ActorId,
    /// Who wrote it originally, preserved across every hop.
    pub author: ActorId,
    /// Travels verbatim and is re-resolved on arrival, never translated here.
    pub anchor: PortableAnchor,
    /// Empty means the snippet *is* the message.
    pub body: String,
    pub mentions: Vec<ActorId>,
    /// Title of the thread it came from, for provenance the recipient can read
    /// without a second lookup.
    pub from_title: String,
}

#[verifier::ext_equal]
pub ghost struct EnvelopeModel {
    pub from: ThreadId,
    pub to: ThreadId,
    pub sender: ActorId,
    pub author: ActorId,
    pub anchor: AnchorModel,
    pub body: Seq<char>,
    pub mentions: Seq<ActorId>,
    pub from_title: Seq<char>,
}

impl DeepView for Envelope {
    type V = EnvelopeModel;

    open spec fn deep_view(&self) -> EnvelopeModel {
        EnvelopeModel {
            from: self.from,
            to: self.to,
            sender: self.sender,
            author: self.author,
            anchor: self.anchor.deep_view(),
            body: self.body@,
            mentions: self.mentions@,
            from_title: self.from_title@,
        }
    }
}

impl Clone for Envelope {
    fn clone(&self) -> (r: Self)
        ensures
            r.deep_view() == self.deep_view(),
    {
        let r = Envelope {
            from: self.from,
            to: self.to,
            sender: self.sender,
            author: self.author,
            anchor: self.anchor.clone(),
            body: self.body.clone(),
            mentions: self.mentions.clone(),
            from_title: self.from_title.clone(),
        };
        assert(r.mentions@ =~= self.mentions@);
        r
    }
}

impl Envelope {
    /// Whether nothing is said about the snippet.
    pub fn is_snippet_only(&self) -> (r: bool)
        ensures
            r == text::blank(self.body@),
    {
        text::is_blank(self.body.as_str())
    }
}

/// What the recipient did with it.
#[derive(Debug)]
pub struct Receipt {
    pub comment: CommentId,
    /// Where the anchor landed *there*. `Orphaned` is a success, not a failure:
    /// the content arrived, it just has nowhere to attach.
    pub resolution: Resolution,
    /// Armed, or waiting for that thread's turn to end.
    pub delivery: Delivery,
}

impl Clone for Receipt {
    fn clone(&self) -> (r: Self)
        ensures
            r == *self,
    {
        Receipt {
            comment: self.comment,
            resolution: self.resolution.clone(),
            delivery: self.delivery,
        }
    }
}

#[derive(Clone, Copy, Debug, PartialEq, Eq, Structural)]
pub enum SendError {
    /// A thread cannot send to itself.
    SameThread,
    /// An agent tried to hand a comment back to where it came from. A person
    /// may do this deliberately; an agent doing it is the A -> B -> A loop.
    WouldLoop,
    UnknownThread(ThreadId),
}

/// Anything that can accept a cross-thread send.
///
/// The shell implements this in-process. A networked workspace would implement
/// it over the wire, and nothing above this line would need to know which.
pub trait ThreadTransport {
    /// Whether this transport can be handed `envelope` as it stands. One that
    /// says nothing else takes whatever it is handed.
    open spec fn can_send(&self, envelope: Envelope) -> bool {
        true
    }

    fn send(&mut self, envelope: Envelope) -> (r: Result<Receipt, SendError>)
        requires
            old(self).can_send(envelope),
    ;
}

} // verus!
