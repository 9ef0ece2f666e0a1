//! Turns: what the agent is handed, and when.
//!
//! Comments ship at turn boundaries. Anything that arrives while an agent is
//! working waits for the boundary; nothing is spliced into a prompt that is
//! already in flight. What an agent handed on waits for a person besides.

use vstd::prelude::*;

use crate::lists;
use crate::model::comment::Delivery;
use crate::seed;
use crate::shell::laws;
use crate::shell::state;
use crate::shell::state::{Release, ReleaseModel, Shell, ShellModel, Turn, TurnModel};
use crate::shell::threads;
use crate::shell::threads::{
    AgentReply, AgentReplyModel, Provenance, ProvenanceModel, ThreadUi, ThreadUiModel, UiComment,
    UiCommentModel,
};
use crate::shell::words;
use crate::text;

verus! {

/// How long the agent takes over a batch.
pub const TURN_MILLIS: u64 = 2_600;

/// A comment once the batch of `turn` has shipped.
pub open spec fn shipped(c: UiCommentModel, turn: u32) -> UiCommentModel {
    if c.delivery == Delivery::Pending {
        UiCommentModel { delivery: Delivery::Delivered { turn }, ..c }
    } else {
        c
    }
}

/// A comment that an agent handed on. It waits for a person to release it,
/// otherwise two agents can drive each other round a loop with nobody in it.
pub open spec fn sent_by_agent(c: UiCommentModel) -> bool {
    c.origin matches ProvenanceModel::Forwarded { forwarded_by, .. } && forwarded_by
        < seed::everyone().len() && seed::everyone()[forwarded_by as int].agent
}

/// A comment that waits for the turn boundary and nothing else: people sent it,
/// or somebody put it back.
pub open spec fn arms_itself(c: UiCommentModel, put_back: Seq<u32>) -> bool {
    c.delivery == Delivery::Queued && (!sent_by_agent(c) || put_back.contains(c.id))
}

/// A comment once the turn it waited for has ended. `Proposed` is deliberately
/// untouched: a turn ending is not somebody agreeing to it. Nor does it release
/// what an agent handed on, unless somebody has put that back.
pub open spec fn armed(c: UiCommentModel, put_back: Seq<u32>) -> UiCommentModel {
    if arms_itself(c, put_back) {
        UiCommentModel { delivery: Delivery::Pending, ..c }
    } else {
        c
    }
}

/// What the agent will answer to one comment.
pub open spec fn answer_to(thread: ThreadUiModel, c: UiCommentModel) -> AgentReplyModel {
    AgentReplyModel {
        in_reply_to: c.id,
        quote: c.body,
        quote_author: c.author,
        body: words::reply_for(
            text::lowercase_of(c.body),
            threads::place_of(
                c,
                thread.diff_path(),
                thread.seed.diff_file,
                thread.seed.diff_lines,
            ),
        ),
        turn: thread.turn,
    }
}

/// What the agent will answer to the pending ones of the first `k` comments.
pub open spec fn answers(thread: ThreadUiModel, k: int) -> Seq<AgentReplyModel>
    decreases k,
{
    if k <= 0 {
        Seq::empty()
    } else if thread.comments[k - 1].delivery == Delivery::Pending {
        answers(thread, k - 1).push(answer_to(thread, thread.comments[k - 1]))
    } else {
        answers(thread, k - 1)
    }
}

impl ThreadUiModel {
    /// With its batch shipped and its agent at work on it.
    pub open spec fn batch_shipped(self) -> ThreadUiModel {
        ThreadUiModel {
            comments: self.comments.map_values(|c: UiCommentModel| shipped(c, self.turn)),
            turn: (self.turn + 1) as u32,
            agent_busy: true,
            ..self
        }
    }

    /// With its turn ended: the replies have landed, and everything that people
    /// sent mid-turn, or put back, has armed itself.
    pub open spec fn turn_ended(
        self,
        replies: Seq<AgentReplyModel>,
        looked_at: bool,
        put_back: Seq<u32>,
    ) -> ThreadUiModel {
        ThreadUiModel {
            agent_busy: false,
            replies: self.replies + replies,
            comments: self.comments.map_values(|c: UiCommentModel| armed(c, put_back)),
            unread: self.unread || (replies.len() > 0 && !looked_at),
            ..self
        }
    }
}

impl ShellModel {
    /// After the current thread's batch was sent, with the turn that starts.
    pub open spec fn batch_sent(self) -> (ShellModel, TurnModel) {
        let thread = self.current();
        (
            self.with_thread(self.active as int, thread.batch_shipped()),
            TurnModel {
                thread: self.active,
                replies: answers(thread, thread.comments.len() as int),
                millis: TURN_MILLIS,
            },
        )
    }

    /// After a turn ended, with the releases the sweep at its end schedules.
    pub open spec fn turn_ended(
        self,
        i: usize,
        replies: Seq<AgentReplyModel>,
    ) -> (ShellModel, Seq<ReleaseModel>) {
        if i < self.threads.len() {
            self.with_thread(
                i as int,
                self.threads[i as int].turn_ended(replies, i == self.active, self.put_back),
            ).swept()
        } else {
            (self, Seq::empty())
        }
    }

    /// With a comment remembered as put back.
    pub open spec fn with_put_back(self, id: u32) -> ShellModel {
        ShellModel { put_back: self.put_back.push(id), ..self }
    }

    /// After a comment of the current thread was taken out of the batch, or put
    /// back.
    pub open spec fn toggled(self, id: u32) -> ShellModel {
        let at = self.active as int;
        match self.current().comment_at(id) {
            Some(k) => match self.current().comments[k].delivery {
                Delivery::Pending => self.with_delivery(at, k, Delivery::Withheld),
                Delivery::Queued => self.with_delivery(at, k, Delivery::Withheld),
                Delivery::Withheld => if self.current().agent_busy {
                    self.with_delivery(at, k, Delivery::Queued).with_put_back(id)
                } else {
                    self.with_delivery(at, k, Delivery::Pending)
                },
                _ => self,
            },
            None => self,
        }
    }
}

/// Withholding is a toggle that never jumps the boundary: what is put back while
/// the agent works waits in the queue, and taking a comment out and putting it
/// back leaves it where such a comment would have been. What was shipped or only
/// proposed is not touched.
pub proof fn withholding_never_jumps_the_boundary(m: ShellModel, id: u32, k: int)
    requires
        m.well_formed(),
        m.current().comment_at(id) == Some(k),
    ensures
        ({
            let was = m.current().comments[k].delivery;
            let armed = if m.current().agent_busy {
                Delivery::Queued
            } else {
                Delivery::Pending
            };
            let once = m.toggled(id).current().comments[k].delivery;
            let twice = m.toggled(id).toggled(id).current().comments[k].delivery;
            &&& was == Delivery::Withheld ==> once == armed && twice == was
            &&& was == Delivery::Pending || was == Delivery::Queued ==> once
                == Delivery::Withheld && twice == armed
            &&& was == Delivery::Proposed || was is Delivered ==> m.toggled(id) == m
        }),
{
    let p = |c: UiCommentModel| c.id == id;
    let was = m.current().comments;
    lists::lemma_position(was, p);
    let after = m.toggled(id);
    let now = after.current().comments;
    lists::lemma_position(now, p);
    assert(now.len() == was.len());
    assert(now[k].id == id);
    assert forall|j: int| 0 <= j < k implies !p(#[trigger] now[j]) by {
        assert(now[j] == was[j]);
        assert(!p(was[j]));
    }
    assert(after.current().comment_at(id) == Some(k));
}

/// Whoever sent it, a comment somebody withheld and put back while the agent
/// works is armed when the turn ends.
pub proof fn what_was_put_back_is_armed_at_the_boundary(
    m: ShellModel,
    id: u32,
    k: int,
    replies: Seq<AgentReplyModel>,
)
    requires
        m.well_formed(),
        m.current().comment_at(id) == Some(k),
        m.current().comments[k].delivery == Delivery::Withheld,
        m.current().agent_busy,
    ensures
        m.toggled(id).current().comments[k].delivery == Delivery::Queued,
        m.toggled(id).current().turn_ended(
            replies,
            true,
            m.toggled(id).put_back,
        ).comments[k].delivery == Delivery::Pending,
{
    let p = |c: UiCommentModel| c.id == id;
    lists::lemma_position(m.current().comments, p);
    let after = m.toggled(id);
    assert(after.current().comments[k].id == id);
    assert(after.put_back[m.put_back.len() as int] == id);
}

/// A batch ships exactly what is pending: everything queued, proposed, withheld
/// or already delivered stays as it was, and what ships is answered once.
pub proof fn a_batch_ships_exactly_what_is_pending(thread: ThreadUiModel)
    ensures
        thread.batch_shipped().comments.len() == thread.comments.len(),
        forall|k: int|
            #![trigger thread.comments[k]]
            0 <= k < thread.comments.len() ==> if thread.comments[k].delivery
                == Delivery::Pending {
                thread.batch_shipped().comments[k].delivery == (Delivery::Delivered {
                    turn: thread.turn,
                })
            } else {
                thread.batch_shipped().comments[k] == thread.comments[k]
            },
        forall|a: AgentReplyModel| #[trigger]
            answers(thread, thread.comments.len() as int).contains(a) <==> exists|k: int|
                0 <= k < thread.comments.len() && (#[trigger] thread.comments[k]).delivery
                    == Delivery::Pending && a == answer_to(thread, thread.comments[k]),
{
    lemma_answers(thread, thread.comments.len() as int);
}

proof fn lemma_answers(thread: ThreadUiModel, n: int)
    requires
        0 <= n <= thread.comments.len(),
    ensures
        forall|a: AgentReplyModel| #[trigger]
            answers(thread, n).contains(a) <==> exists|k: int|
                0 <= k < n && (#[trigger] thread.comments[k]).delivery == Delivery::Pending && a
                    == answer_to(thread, thread.comments[k]),
    decreases n,
{
    if n > 0 {
        lemma_answers(thread, n - 1);
        let before = answers(thread, n - 1);
        let all = answers(thread, n);
        assert forall|a: AgentReplyModel| #[trigger] all.contains(a) <==> exists|k: int|
            0 <= k < n && (#[trigger] thread.comments[k]).delivery == Delivery::Pending && a
                == answer_to(thread, thread.comments[k]) by {
            if all.contains(a) {
                let j = choose|j: int| 0 <= j < all.len() && all[j] == a;
                if j < before.len() {
                    assert(before[j] == a);
                    assert(before.contains(a));
                } else {
                    assert(thread.comments[n - 1].delivery == Delivery::Pending);
                }
            }
            if exists|k: int|
                0 <= k < n && (#[trigger] thread.comments[k]).delivery == Delivery::Pending && a
                    == answer_to(thread, thread.comments[k]) {
                let k = choose|k: int|
                    0 <= k < n && (#[trigger] thread.comments[k]).delivery == Delivery::Pending
                        && a == answer_to(thread, thread.comments[k]);
                if k < n - 1 {
                    assert(before.contains(a));
                    let j = choose|j: int| 0 <= j < before.len() && before[j] == a;
                    assert(all[j] == a);
                } else {
                    assert(all[all.len() - 1] == a);
                }
            }
        }
    }
}

/// The turn boundary arms what people queued or put back and touches nothing
/// else: it never approves what was proposed, releases what an agent handed on,
/// includes what was withheld, or repeats what was delivered.
pub proof fn the_boundary_arms_only_what_was_queued(
    thread: ThreadUiModel,
    replies: Seq<AgentReplyModel>,
    looked_at: bool,
    put_back: Seq<u32>,
)
    ensures
        thread.turn_ended(replies, looked_at, put_back).comments.len() == thread.comments.len(),
        forall|k: int|
            #![trigger thread.comments[k]]
            0 <= k < thread.comments.len() ==> if arms_itself(
                thread.comments[k],
                put_back,
            ) {
                thread.turn_ended(replies, looked_at, put_back).comments[k].delivery == Delivery::Pending
            } else {
                thread.turn_ended(replies, looked_at, put_back).comments[k] == thread.comments[k]
            },
        !thread.turn_ended(replies, looked_at, put_back).agent_busy,
{
}

proof fn lemma_keeps_identities(m: ShellModel, i: int, thread: ThreadUiModel)
    requires
        m.well_formed(),
        0 <= i < m.threads.len(),
        thread.seed == m.threads[i].seed,
        thread.sent == m.threads[i].sent,
        state::same_identities(m.threads[i].comments, thread.comments),
    ensures
        m.with_thread(i, thread).well_formed(),
{
    let after = m.with_thread(i, thread);
    assert forall|j: int| 0 <= j < after.threads.len() implies {
        &&& (#[trigger] after.threads[j]).seed == m.threads[j].seed
        &&& state::same_identities(m.threads[j].comments, after.threads[j].comments)
        &&& state::sent_to_threads(after.threads[j], after.threads.len())
    } by {
        assert(state::sent_to_threads(m.threads[j], m.threads.len()));
    }
    state::lemma_same_identities(m, after);
}

/// What the agent will answer to one comment.
fn answer_comment(thread: &ThreadUi, k: usize) -> (r: AgentReply)
    requires
        k < thread.comments.len(),
    ensures
        r.deep_view() == answer_to(thread.deep_view(), thread.deep_view().comments[k as int]),
{
    let comment = &thread.comments[k];
    let diff_path = thread.diff_path();
    let place = threads::describe_where(
        comment,
        diff_path.as_str(),
        thread.seed.diff_file,
        &thread.seed.diff_lines,
    );
    AgentReply {
        in_reply_to: comment.id,
        quote: comment.body.clone(),
        quote_author: comment.author,
        body: words::synth_reply(comment.body.as_str(), place.as_str()),
        turn: thread.turn,
    }
}

impl Shell {
    /// Sends the current thread's pending comments to its agent. Hands them over
    /// rather than answering on the agent's behalf; the replies appear when the
    /// turn ends, which is also when the queue releases.
    pub fn send_batch(&mut self) -> (r: Turn)
        requires
            old(self).deep_view().well_formed(),
            old(self).deep_view().current().turn < u32::MAX,
        ensures
            final(self).deep_view() == old(self).deep_view().batch_sent().0,
            r.deep_view() == old(self).deep_view().batch_sent().1,
            final(self).deep_view().well_formed(),
            final(self).next_id == old(self).next_id,
    {
        let ghost m = self.deep_view();
        let ghost thread = m.current();
        let active = self.active;
        assert(thread == self.threads@[active as int].deep_view());
        let mut produced: Vec<AgentReply> = Vec::new();
        assert(produced.deep_view() =~= answers(thread, 0));
        let n = self.threads[active].comments.len();
        let mut k: usize = 0;
        while k < n
            invariant
                self.deep_view() == m,
                active == m.active,
                active < self.threads.len(),
                thread == m.current(),
                n == thread.comments.len(),
                k <= n,
                produced.deep_view() == answers(thread, k as int),
            decreases n - k,
        {
            assert(thread == self.threads@[active as int].deep_view());
            assert(thread.comments[k as int]
                == self.threads@[active as int].comments@[k as int].deep_view());
            if self.threads[active].comments[k].delivery == Delivery::Pending {
                let ghost before = produced.deep_view();
                let reply = answer_comment(&self.threads[active], k);
                produced.push(reply);
                assert(produced.deep_view() =~= before.push(reply.deep_view()));
            }
            k += 1;
        }
        assert(thread == self.threads@[active as int].deep_view());
        let turn = self.threads[active].turn;
        ship(&mut self.threads[active].comments, turn);
        self.threads[active].turn = turn + 1;
        proof {
            let waiting = ThreadUiModel {
                agent_busy: thread.agent_busy,
                ..thread.batch_shipped()
            };
            assert(self.threads@[active as int].deep_view() =~= waiting);
            assert(self.threads.deep_view() =~= m.threads.update(active as int, waiting));
            assert(m.threads.update(active as int, waiting).update(
                active as int,
                thread.batch_shipped(),
            ) =~= m.threads.update(active as int, thread.batch_shipped()));
            lemma_keeps_identities(m, active as int, thread.batch_shipped());
        }
        self.start_turn(active, produced, TURN_MILLIS)
    }

    /// Put a thread's agent to work, and have it finish on its own.
    ///
    /// The replies are canned, but the *timing* is not: the turn occupies real
    /// wall-clock, so queueing is something you watch happen rather than
    /// something the UI asserts.
    pub fn start_turn(
        &mut self,
        thread_index: usize,
        replies: Vec<AgentReply>,
        millis: u64,
    ) -> (r: Turn)
        requires
            thread_index < old(self).threads.len(),
        ensures
            final(self).deep_view() == old(self).deep_view().with_thread(
                thread_index as int,
                ThreadUiModel {
                    agent_busy: true,
                    ..old(self).deep_view().threads[thread_index as int]
                },
            ),
            r.deep_view() == (TurnModel {
                thread: thread_index,
                replies: replies.deep_view(),
                millis,
            }),
    {
        let ghost m = self.deep_view();
        assert(m.threads[thread_index as int] == self.threads@[thread_index as int].deep_view());
        self.threads[thread_index].agent_busy = true;
        assert(self.threads.deep_view() =~= m.with_thread(
            thread_index as int,
            ThreadUiModel { agent_busy: true, ..m.threads[thread_index as int] },
        ).threads);
        Turn { thread: thread_index, replies, millis }
    }

    /// The turn boundary. Replies land, and everything that people sent mid-turn
    /// arms itself -- nobody had to decide that. What an agent handed on still
    /// waits for somebody to.
    pub fn finish_turn(&mut self, thread_index: usize, replies: Vec<AgentReply>) -> (r: Vec<
        Release,
    >)
        requires
            old(self).deep_view().well_formed(),
            old(self).deep_view().has_room(),
        ensures
            final(self).deep_view() == old(self).deep_view().turn_ended(
                thread_index,
                replies.deep_view(),
            ).0,
            r.deep_view() == old(self).deep_view().turn_ended(
                thread_index,
                replies.deep_view(),
            ).1,
            laws::replies_follow(
                old(self).deep_view(),
                final(self).deep_view(),
                thread_index as int,
                replies.deep_view(),
            ),
            final(self).deep_view().well_formed(),
    {
        let ghost m = self.deep_view();
        let ghost landed = replies.deep_view();
        if thread_index >= self.threads.len() {
            let none: Vec<Release> = Vec::new();
            assert(none.deep_view() =~= Seq::<ReleaseModel>::empty());
            return none;
        }
        let ghost thread = m.threads[thread_index as int];
        assert(thread == self.threads@[thread_index as int].deep_view());
        let looked_at = thread_index == self.active;
        let had_replies = replies.len() > 0;
        self.threads[thread_index].agent_busy = false;
        let mut more = replies;
        let ghost before = self.threads@[thread_index as int].replies@;
        let ghost added = more@;
        self.threads[thread_index].replies.append(&mut more);
        assert(self.threads@[thread_index as int].replies.deep_view() =~= thread.replies + landed);
        arm(&mut self.threads[thread_index].comments, &self.put_back);
        if had_replies && !looked_at {
            self.threads[thread_index].unread = true;
        }
        proof {
            let ended = thread.turn_ended(landed, looked_at, m.put_back);
            assert(self.threads@[thread_index as int].deep_view() =~= ended);
            assert(self.threads.deep_view() =~= m.with_thread(
                thread_index as int,
                ended,
            ).threads);
            lemma_keeps_identities(m, thread_index as int, ended);
        }
        proof {
            laws::lemma_replies_land_behind(m, thread_index, landed);
        }
        // A turn just ended, so there is new work to compare. This is the cheap
        // tier: set maths over live threads, no model call.
        self.sweep()
    }

    fn change_delivery(&mut self, i: usize, k: usize, delivery: Delivery)
        requires
            old(self).deep_view().well_formed(),
            i < old(self).threads.len(),
            k < old(self).threads@[i as int].comments.len(),
        ensures
            final(self).deep_view() == old(self).deep_view().with_delivery(
                i as int,
                k as int,
                delivery,
            ),
            final(self).deep_view().well_formed(),
    {
        let ghost m = self.deep_view();
        assert(m.threads[i as int] == self.threads@[i as int].deep_view());
        self.set_delivery(i, k, delivery);
        proof {
            crate::shell::sweep::lemma_with_delivery(m, i as int, k as int, delivery);
        }
    }

    /// Takes a comment out of the batch, or puts it back. Putting back what an
    /// agent sent lets it through, at the boundary if the agent is working.
    pub fn toggle_delivery(&mut self, id: u32)
        requires
            old(self).deep_view().well_formed(),
        ensures
            final(self).deep_view() == old(self).deep_view().toggled(id),
            final(self).deep_view().well_formed(),
    {
        let ghost m = self.deep_view();
        let active = self.active;
        assert(m.current() == self.threads@[active as int].deep_view());
        let busy = self.threads[active].agent_busy;
        if let Some(k) = self.threads[active].find_comment(id) {
            assert(m.current().comments[k as int]
                == self.threads@[active as int].comments@[k as int].deep_view());
            match self.threads[active].comments[k].delivery {
                Delivery::Pending => self.change_delivery(active, k, Delivery::Withheld),
                Delivery::Queued => self.change_delivery(active, k, Delivery::Withheld),
                // Re-arming puts it back on the queue if the agent is still
                // working, rather than jumping the boundary.
                Delivery::Withheld => if busy {
                    self.change_delivery(active, k, Delivery::Queued);
                    self.put_back.push(id);
                    proof {
                        lists::lemma_position(
                            m.current().comments,
                            |c: UiCommentModel| c.id == id,
                        );
                        assert(state::sound(m.threads[active as int].comments, m.next_id));
                    }
                } else {
                    self.change_delivery(active, k, Delivery::Pending);
                },
                _ => {},
            }
        }
    }
}

/// Marks what is pending as delivered.
fn ship(comments: &mut Vec<UiComment>, turn: u32)
    ensures
        final(comments).deep_view() == old(comments).deep_view().map_values(
            |c: UiCommentModel| shipped(c, turn),
        ),
{
    let ghost was = comments.deep_view();
    let ghost f = |c: UiCommentModel| shipped(c, turn);
    let n = comments.len();
    let mut k: usize = 0;
    while k < n
        invariant
            n == comments.len(),
            n == was.len(),
            f == (|c: UiCommentModel| shipped(c, turn)),
            k <= n,
            forall|j: int| 0 <= j < k ==> (#[trigger] comments@[j]).deep_view() == f(was[j]),
            forall|j: int| k <= j < n ==> (#[trigger] comments@[j]).deep_view() == was[j],
        decreases n - k,
    {
        assert(comments@[k as int].deep_view() == was[k as int]);
        if comments[k].delivery == Delivery::Pending {
            comments[k].delivery = Delivery::Delivered { turn };
        }
        assert(comments@[k as int].deep_view() == f(was[k as int]));
        k += 1;
    }
    assert(comments.deep_view() =~= was.map_values(f));
}

fn holds_id(list: &Vec<u32>, id: u32) -> (r: bool)
    ensures
        r == list@.contains(id),
{
    let mut i: usize = 0;
    while i < list.len()
        invariant
            i <= list.len(),
            forall|k: int| 0 <= k < i ==> #[trigger] list@[k] != id,
        decreases list.len() - i,
    {
        if list[i] == id {
            assert(list@[i as int] == id);
            return true;
        }
        i += 1;
    }
    false
}

fn is_sent_by_agent(comment: &UiComment) -> (r: bool)
    ensures
        r == sent_by_agent(comment.deep_view()),
{
    match comment.origin {
        Provenance::Forwarded { forwarded_by, .. } => {
            let actors = seed::actors();
            assert(actors.deep_view() == seed::everyone());
            if forwarded_by < actors.len() {
                assert(actors.deep_view()[forwarded_by as int]
                    == actors@[forwarded_by as int].deep_view());
                actors[forwarded_by].agent
            } else {
                false
            }
        },
        Provenance::Local => false,
    }
}

/// Arms what is queued.
fn arm(comments: &mut Vec<UiComment>, put_back: &Vec<u32>)
    ensures
        final(comments).deep_view() == old(comments).deep_view().map_values(
            |c: UiCommentModel| armed(c, put_back@),
        ),
{
    let ghost was = comments.deep_view();
    let ghost f = |c: UiCommentModel| armed(c, put_back@);
    let n = comments.len();
    let mut k: usize = 0;
    while k < n
        invariant
            n == comments.len(),
            n == was.len(),
            f == (|c: UiCommentModel| armed(c, put_back@)),
            k <= n,
            forall|j: int| 0 <= j < k ==> (#[trigger] comments@[j]).deep_view() == f(was[j]),
            forall|j: int| k <= j < n ==> (#[trigger] comments@[j]).deep_view() == was[j],
        decreases n - k,
    {
        assert(comments@[k as int].deep_view() == was[k as int]);
        if comments[k].delivery == Delivery::Queued && (!is_sent_by_agent(&comments[k]) || holds_id(
            put_back,
            comments[k].id,
        )) {
            comments[k].delivery = Delivery::Pending;
        }
        assert(comments@[k as int].deep_view() == f(was[k as int]));
        k += 1;
    }
    assert(comments.deep_view() =~= was.map_values(f));
}

} // verus!
