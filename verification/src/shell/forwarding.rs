//! Handing things to other threads.

use vstd::prelude::*;

use crate::model::actor::ActorId;
use crate::model::anchor;
use crate::model::anchor::AnchorModel;
use crate::model::comment::CommentId;
use crate::model::thread::ThreadId;
use crate::model::transport::{Envelope, EnvelopeModel, Receipt, SendError, ThreadTransport};
use crate::seed;
use crate::shell::editing;
use crate::shell::state;
use crate::shell::state::{Forwarding, Shell, ShellModel};
use crate::shell::threads;
use crate::shell::threads::{
    CommentReplyModel, Provenance, ProvenanceModel, SentRecord, SentRecordModel, ThreadUiModel,
    UiComment, UiCommentModel,
};
use crate::shell::words;
use crate::text;

verus! {

/// How much of a note the sender's record quotes.
pub const EXCERPT: usize = 48;

/// What the sender's record says was sent.
pub open spec fn excerpt_of(body: Seq<char>) -> Seq<char> {
    if body.len() > EXCERPT {
        body.take(EXCERPT as int) + "..."@
    } else if body.len() == 0 {
        "a snippet"@
    } else {
        body
    }
}

/// What the sender's record says was sent.
pub fn excerpt(body: &str) -> (r: String)
    ensures
        r@ == excerpt_of(body@),
{
    let n = body.unicode_len();
    if n > EXCERPT {
        assert(body@.subrange(0, EXCERPT as int) =~= body@.take(EXCERPT as int));
        let mut out = body.substring_char(0, EXCERPT).to_owned();
        out.append("...");
        out
    } else if n == 0 {
        "a snippet".to_owned()
    } else {
        body.to_owned()
    }
}

/// The people an envelope names, by where they stand.
pub open spec fn named(mentions: Seq<ActorId>) -> Seq<usize> {
    mentions.map_values(|a: ActorId| a.0 as usize)
}

/// People by where they stand, as an envelope names them.
pub open spec fn ids(mentions: Seq<usize>) -> Seq<ActorId> {
    mentions.map_values(|m: usize| ActorId(m as u32))
}

fn positions(mentions: &Vec<ActorId>) -> (r: Vec<usize>)
    ensures
        r@ == named(mentions@),
{
    let mut out: Vec<usize> = Vec::new();
    let mut i: usize = 0;
    while i < mentions.len()
        invariant
            i <= mentions.len(),
            out@ == named(mentions@).take(i as int),
        decreases mentions.len() - i,
    {
        out.push(mentions[i].0 as usize);
        i += 1;
        assert(out@ =~= named(mentions@).take(i as int));
    }
    assert(out@ =~= named(mentions@));
    out
}

fn actor_ids(mentions: &Vec<usize>) -> (r: Vec<ActorId>)
    ensures
        r@ == ids(mentions@),
{
    let mut out: Vec<ActorId> = Vec::new();
    let mut i: usize = 0;
    while i < mentions.len()
        invariant
            i <= mentions.len(),
            out@ == ids(mentions@).take(i as int),
        decreases mentions.len() - i,
    {
        out.push(ActorId(mentions[i] as u32));
        i += 1;
        assert(out@ =~= ids(mentions@).take(i as int));
    }
    assert(out@ =~= ids(mentions@));
    out
}

/// Whether a comment is what the envelope hands on, and came from the thread
/// called `home`.
pub open spec fn came_from(c: UiCommentModel, e: EnvelopeModel, home: Seq<char>) -> bool {
    &&& c.anchor == e.anchor
    &&& c.body == e.body
    &&& c.author == e.author.0
    &&& c.origin matches ProvenanceModel::Forwarded { from_title, .. } && from_title == home
}

impl ShellModel {
    /// Whether the envelope hands a comment back to the thread it came from.
    pub open spec fn goes_home(self, e: EnvelopeModel) -> bool {
        let home = self.threads[e.to.0 as int].seed.title;
        e.from.0 < self.threads.len() && exists|k: int|
            0 <= k < self.threads[e.from.0 as int].comments.len() && came_from(
                #[trigger] self.threads[e.from.0 as int].comments[k],
                e,
                home,
            )
    }

    /// Why an envelope is refused, if it is. An agent may not send something to
    /// the thread it names as its own, nor hand a comment back to where it came
    /// from: that is the A -> B -> A loop.
    pub open spec fn refusal(self, e: EnvelopeModel) -> Option<SendError> {
        if e.to == e.from {
            Some(SendError::SameThread)
        } else if e.to.0 >= self.threads.len() {
            Some(SendError::UnknownThread(e.to))
        } else if !threads::allowed(
            seed::everyone()[e.sender.0 as int].agent,
            Some(e.from_title),
            self.threads[e.to.0 as int].seed.title,
        ) || (seed::everyone()[e.sender.0 as int].agent && self.goes_home(e)) {
            Some(SendError::WouldLoop)
        } else {
            None
        }
    }

    /// An envelope whose sender is someone, from a thread that exists, with an
    /// anchor that can be resolved; and there is an id for what it carries. What
    /// is refused before any of that matters needs none of it.
    pub open spec fn takes(self, e: EnvelopeModel) -> bool {
        e.to != e.from && e.to.0 < self.threads.len() ==> {
            &&& e.sender.0 < seed::everyone().len()
            &&& self.refusal(e) is None ==> {
                &&& e.from.0 < self.threads.len()
                &&& e.anchor.well_formed()
                &&& self.next_id < u32::MAX
            }
        }
    }

    /// The comment an envelope becomes where it lands.
    pub open spec fn unpacked(self, e: EnvelopeModel) -> UiCommentModel {
        let to = self.threads[e.to.0 as int];
        UiCommentModel {
            id: (self.next_id + 1) as u32,
            handle: to.next_handle(),
            anchor: e.anchor,
            resolved: to.resolved_in(e.anchor),
            body: e.body,
            author: e.author.0 as usize,
            mentions: named(e.mentions),
            origin: ProvenanceModel::Forwarded {
                from_title: self.threads[e.from.0 as int].seed.title,
                forwarded_by: e.sender.0 as usize,
                original_author: e.author.0 as usize,
            },
            delivery: threads::arrival(
                seed::everyone()[e.sender.0 as int].agent,
                to.agent_busy,
            ),
            divergence: None,
            about: None,
            replies: Seq::empty(),
        }
    }

    /// After an envelope was taken: the comment has landed where it was sent,
    /// and the sender has a record of it.
    pub open spec fn delivered(self, e: EnvelopeModel) -> ShellModel {
        let to = e.to.0 as int;
        let from = e.from.0 as int;
        let landed = self.with_comment(to, self.unpacked(e));
        let noticed = landed.with_thread(
            to,
            ThreadUiModel { unread: true, ..landed.threads[to] },
        );
        let sender = noticed.threads[from];
        noticed.with_thread(
            from,
            ThreadUiModel {
                sent: sender.sent.push(
                    SentRecordModel {
                        to: e.to.0 as usize,
                        comment: self.unpacked(e).id,
                        excerpt: excerpt_of(e.body),
                    },
                ),
                ..sender
            },
        )
    }

    /// What the recipient says it did.
    pub open spec fn receipt(self, e: EnvelopeModel) -> Receipt {
        Receipt {
            comment: CommentId(self.unpacked(e).id),
            resolution: self.unpacked(e).resolved,
            delivery: self.unpacked(e).delivery,
        }
    }

    /// After an envelope was posted, whatever came of it.
    pub open spec fn posted(self, e: EnvelopeModel) -> ShellModel {
        let after = if self.refusal(e) is None {
            self.delivered(e)
        } else {
            self
        };
        ShellModel { forwarding: Forwarding::Idle, ..after }
    }

    /// The envelope for something the person at the window hands to thread `to`.
    pub open spec fn envelope(
        self,
        to: usize,
        author: usize,
        anchor: AnchorModel,
        body: Seq<char>,
        mentions: Seq<usize>,
    ) -> EnvelopeModel {
        EnvelopeModel {
            from: ThreadId(self.active as u32),
            to: ThreadId(to as u32),
            sender: ActorId(seed::ME as u32),
            author: ActorId(author as u32),
            anchor,
            body,
            mentions: ids(mentions),
            from_title: self.current().seed.title,
        }
    }

    /// After the highlighted span was handed to thread `to`, with whatever had
    /// been typed about it.
    pub open spec fn selection_forwarded(self, to: usize) -> ShellModel {
        match self.target {
            Some(target) if to != self.active && !(target is Reply) => {
                let e = self.envelope(
                    to,
                    seed::ME,
                    editing::target_anchor(self.current(), target)->0,
                    self.note(),
                    words::mentioned(text::words(self.note())),
                );
                (ShellModel { target: None, ..self.with_nothing_typed() }).posted(e)
            },
            _ => self,
        }
    }

    /// After a comment of the current thread was handed to thread `to`.
    pub open spec fn comment_forwarded(self, id: u32, to: usize) -> ShellModel {
        match self.current().comment_at(id) {
            Some(k) if to != self.active => {
                let c = self.current().comments[k];
                self.posted(self.envelope(to, c.author, c.anchor, c.body, c.mentions))
            },
            _ => self,
        }
    }

    /// After what `what` says was handed to thread `to`.
    pub open spec fn forwarded(self, what: Forwarding, to: usize) -> ShellModel {
        match what {
            Forwarding::Comment(id) => self.comment_forwarded(id, to),
            Forwarding::Selection => self.selection_forwarded(to),
            Forwarding::Idle => self,
        }
    }
}

/// Delivering an envelope keeps the shell well formed.
proof fn lemma_delivered(m: ShellModel, e: EnvelopeModel)
    requires
        m.well_formed(),
        m.takes(e),
        m.refusal(e) is None,
    ensures
        m.delivered(e).well_formed(),
{
    let to = e.to.0 as int;
    let from = e.from.0 as int;
    let c = m.unpacked(e);
    assert forall|i: int| 0 <= i < c.mentions.len() implies #[trigger] c.mentions[i]
        <= u32::MAX by {
        assert(c.mentions[i] == e.mentions[i].0 as usize);
    }
    state::lemma_with_comment(m, to, c);
    let landed = m.with_comment(to, c);
    let after = m.delivered(e);
    assert forall|j: int| 0 <= j < after.threads.len() implies {
        &&& (#[trigger] after.threads[j]).seed == landed.threads[j].seed
        &&& state::same_identities(landed.threads[j].comments, after.threads[j].comments)
        &&& state::sent_to_threads(after.threads[j], after.threads.len())
    } by {
        assert(state::sent_to_threads(landed.threads[j], landed.threads.len()));
    }
    state::lemma_same_identities(landed, after);
}

/// The in-process implementation. Everything a network one would also have to
/// do is here and nowhere else: refuse a loop, re-resolve the anchor against
/// the recipient's own content, and let the recipient's state decide whether
/// the comment is armed.
impl ThreadTransport for Shell {
    open spec fn can_send(&self, envelope: Envelope) -> bool {
        &&& self.deep_view().well_formed()
        &&& self.deep_view().takes(envelope.deep_view())
    }

    fn send(&mut self, envelope: Envelope) -> (r: Result<Receipt, SendError>)
        ensures
            match old(self).deep_view().refusal(envelope.deep_view()) {
                Some(why) => r == Err::<Receipt, SendError>(why) && final(self).deep_view() == old(
                    self,
                ).deep_view(),
                None => {
                    &&& r == Ok::<Receipt, SendError>(
                        old(self).deep_view().receipt(envelope.deep_view()),
                    )
                    &&& final(self).deep_view() == old(self).deep_view().delivered(
                        envelope.deep_view(),
                    )
                },
            },
            final(self).deep_view().well_formed(),
    {
        let ghost m = self.deep_view();
        let ghost e = envelope.deep_view();
        if envelope.to == envelope.from {
            return Err(SendError::SameThread);
        }
        if envelope.to.0 as u64 >= self.threads.len() as u64 {
            return Err(SendError::UnknownThread(envelope.to));
        }
        let to = envelope.to.0 as usize;
        let from = envelope.from.0 as usize;
        let sender = envelope.sender.0 as usize;
        assert(m.threads[to as int] == self.threads@[to as int].deep_view());
        if !threads::forward_allowed(
            sender,
            Some(envelope.from_title.as_str()),
            self.threads[to].seed.title,
        ) {
            return Err(SendError::WouldLoop);
        }
        if seed::actor(sender).agent && self.hands_back(&envelope) {
            return Err(SendError::WouldLoop);
        }
        proof {
            lemma_delivered(m, e);
        }
        assert(m.threads[from as int] == self.threads@[from as int].deep_view());
        let resolution = threads::resolve_in(&self.threads[to], &envelope.anchor);
        let delivery = threads::arrival_delivery(sender, self.threads[to].agent_busy);
        let handle = threads::comment_handle(&self.threads[to]);
        let id = self.next_id + 1;
        let from_title = self.threads[from].seed.title;
        let record = excerpt(envelope.body.as_str());
        let comment = UiComment {
            id,
            handle,
            anchor: envelope.anchor,
            resolved: resolution.clone(),
            body: envelope.body,
            author: envelope.author.0 as usize,
            mentions: positions(&envelope.mentions),
            origin: Provenance::Forwarded {
                from_title,
                forwarded_by: sender,
                original_author: envelope.author.0 as usize,
            },
            delivery,
            divergence: None,
            about: None,
            replies: Vec::new(),
        };
        assert(comment.replies.deep_view() =~= Seq::<CommentReplyModel>::empty());
        assert(comment.deep_view() =~= m.unpacked(e));
        self.add_comment(to, comment);
        let ghost landed = self.deep_view();
        assert(landed.threads[to as int] == self.threads@[to as int].deep_view());
        assert(landed.threads[from as int] == self.threads@[from as int].deep_view());
        self.threads[to].unread = true;
        let sent = SentRecord { to, comment: id, excerpt: record };
        let ghost s = sent.deep_view();
        self.threads[from].sent.push(sent);
        proof {
            let after = m.delivered(e);
            assert(self.threads@[from as int].sent.deep_view()
                =~= landed.threads[from as int].sent.push(s));
            assert(self.threads.deep_view() =~= after.threads);
        }
        Ok(Receipt { comment: CommentId(id), resolution, delivery })
    }
}

/// Whether a comment is what the envelope hands on, and came from the thread
/// called `home`.
fn is_from(comment: &UiComment, envelope: &Envelope, home: &str) -> (r: bool)
    ensures
        r == came_from(comment.deep_view(), envelope.deep_view(), home@),
{
    let foreign = match comment.origin {
        Provenance::Forwarded { from_title, .. } => text::same_text(from_title, home),
        Provenance::Local => false,
    };
    foreign && comment.author as u64 == envelope.author.0 as u64 && text::same_text(
        comment.body.as_str(),
        envelope.body.as_str(),
    ) && anchor::same_anchor(&comment.anchor, &envelope.anchor)
}

impl Shell {
    /// Whether the envelope hands a comment back to the thread it came from.
    fn hands_back(&self, envelope: &Envelope) -> (r: bool)
        requires
            envelope.to.0 < self.threads.len(),
        ensures
            r == self.deep_view().goes_home(envelope.deep_view()),
    {
        if envelope.from.0 as u64 >= self.threads.len() as u64 {
            return false;
        }
        let ghost m = self.deep_view();
        let ghost e = envelope.deep_view();
        let home = self.threads[envelope.to.0 as usize].seed.title;
        let thread = &self.threads[envelope.from.0 as usize];
        assert(m.threads[e.to.0 as int] == self.threads@[e.to.0 as int].deep_view());
        assert(m.threads[e.from.0 as int] == thread.deep_view());
        let ghost all = m.threads[e.from.0 as int].comments;
        let mut k: usize = 0;
        while k < thread.comments.len()
            invariant
                m == self.deep_view(),
                e == envelope.deep_view(),
                e.from.0 < m.threads.len(),
                home@ == m.threads[e.to.0 as int].seed.title,
                all == m.threads[e.from.0 as int].comments,
                all == thread.comments.deep_view(),
                k <= thread.comments.len(),
                forall|j: int| 0 <= j < k ==> !came_from(#[trigger] all[j], e, home@),
            decreases thread.comments.len() - k,
        {
            assert(all[k as int] == thread.comments@[k as int].deep_view());
            if is_from(&thread.comments[k], envelope, home) {
                assert(came_from(m.threads[e.from.0 as int].comments[k as int], e, home@));
                return true;
            }
            k += 1;
        }
        false
    }

    /// Posts an envelope. The transport either took it or did not, and nothing
    /// partial happened; the picker closes either way, so that a refusal is at
    /// least visible.
    pub fn post(&mut self, envelope: Envelope)
        requires
            old(self).deep_view().well_formed(),
            old(self).deep_view().takes(envelope.deep_view()),
        ensures
            final(self).deep_view() == old(self).deep_view().posted(envelope.deep_view()),
            final(self).deep_view().well_formed(),
    {
        let _ = self.send(envelope);
        self.forwarding = Forwarding::Idle;
    }

    /// Hands what is pending to thread `to`.
    pub fn forward_to(&mut self, what: Forwarding, to: usize)
        requires
            old(self).deep_view().well_formed(),
            to <= u32::MAX,
            old(self).next_id < u32::MAX,
        ensures
            final(self).deep_view() == old(self).deep_view().forwarded(what, to),
            final(self).deep_view().well_formed(),
    {
        match what {
            Forwarding::Comment(id) => self.forward_comment(id, to),
            Forwarding::Selection => self.forward_selection(to),
            Forwarding::Idle => {},
        }
    }

    /// Hand the highlighted span to another thread, carrying whatever has been
    /// typed about it. An empty note is fine -- then the snippet is the message.
    pub fn forward_selection(&mut self, to: usize)
        requires
            old(self).deep_view().well_formed(),
            to <= u32::MAX,
            old(self).next_id < u32::MAX,
        ensures
            final(self).deep_view() == old(self).deep_view().selection_forwarded(to),
            final(self).deep_view().well_formed(),
    {
        let ghost m = self.deep_view();
        let target = match self.target {
            Some(target) => target,
            None => {
                return;
            },
        };
        if to == self.active {
            return;
        }
        let active = self.active;
        assert(m.current() == self.threads@[active as int].deep_view());
        let anchor = match editing::anchor_target(&self.threads[active], target) {
            Some(anchor) => anchor,
            None => {
                return;
            },
        };
        let note = text::trim(self.composer.text());
        let mentions = words::parse_mentions(note.as_str());
        let envelope = Envelope {
            from: ThreadId(active as u32),
            to: ThreadId(to as u32),
            sender: ActorId(seed::ME as u32),
            author: ActorId(seed::ME as u32),
            anchor,
            body: note,
            mentions: actor_ids(&mentions),
            from_title: self.threads[active].seed.title.to_owned(),
        };
        self.target = None;
        self.clear_composer();
        self.post(envelope);
    }

    /// Copy a comment into another thread: it lands directly, with no accept
    /// gate, and the recipient's state decides whether it is armed or waits. The
    /// anchor travels verbatim and is re-resolved there rather than adjusted by
    /// the sender, who has no view of the recipient's worktree.
    pub fn forward_comment(&mut self, comment_id: u32, to: usize)
        requires
            old(self).deep_view().well_formed(),
            to <= u32::MAX,
            old(self).next_id < u32::MAX,
        ensures
            final(self).deep_view() == old(self).deep_view().comment_forwarded(comment_id, to),
            final(self).deep_view().well_formed(),
    {
        let ghost m = self.deep_view();
        let active = self.active;
        if to == active {
            return;
        }
        assert(m.current() == self.threads@[active as int].deep_view());
        let k = match self.threads[active].find_comment(comment_id) {
            Some(k) => k,
            None => {
                return;
            },
        };
        let ghost c = m.current().comments[k as int];
        assert(c == self.threads@[active as int].comments@[k as int].deep_view());
        assert(state::sound(m.current().comments, m.next_id)) by {
            assert(m.threads[active as int] == m.current());
        }
        assert(c.portable());
        let comment = &self.threads[active].comments[k];
        let envelope = Envelope {
            from: ThreadId(active as u32),
            to: ThreadId(to as u32),
            sender: ActorId(seed::ME as u32),
            author: ActorId(comment.author as u32),
            anchor: comment.anchor.clone(),
            body: comment.body.clone(),
            mentions: actor_ids(&comment.mentions),
            from_title: self.threads[active].seed.title.to_owned(),
        };
        self.post(envelope);
    }
}

} // verus!
