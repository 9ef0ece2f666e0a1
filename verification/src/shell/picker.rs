//! The `@` picker, and what the composer's events mean.

use vstd::prelude::*;

use crate::composer::ComposerEvent;
use crate::lists;
use crate::offset;
use crate::seed;
use crate::seed::SeedActorModel;
use crate::shell::state::{Shell, ShellModel, Turn, TurnModel};
use crate::shell::threads::{MentionTarget, ThreadUi, ThreadUiModel};
use crate::shell::words;
use crate::text;

verus! {

/// Whether a person's handle starts with what was typed, in lower case. Agents
/// are never listed -- to reach the agent in another thread you address the
/// thread.
pub open spec fn person_matches(actor: SeedActorModel, query: Seq<char>) -> bool {
    !actor.agent && text::starts_with(text::lowercase_of(actor.handle), query)
}

/// Whether a thread you are in has a slug that starts with what was typed, in
/// lower case.
pub open spec fn thread_matches(thread: ThreadUiModel, query: Seq<char>) -> bool {
    thread.seed.addressable(seed::ME) && text::starts_with(
        text::lowercase_of(thread.seed.slug),
        query,
    )
}

/// Which of the first `k` actors match.
pub open spec fn people_matching(
    actors: Seq<SeedActorModel>,
    query: Seq<char>,
    k: int,
) -> Seq<MentionTarget>
    decreases k,
{
    if k <= 0 {
        Seq::empty()
    } else if person_matches(actors[k - 1], query) {
        people_matching(actors, query, k - 1).push(MentionTarget::Actor((k - 1) as usize))
    } else {
        people_matching(actors, query, k - 1)
    }
}

/// Which of the first `k` threads match.
pub open spec fn threads_matching(
    threads: Seq<ThreadUiModel>,
    query: Seq<char>,
    k: int,
) -> Seq<MentionTarget>
    decreases k,
{
    if k <= 0 {
        Seq::empty()
    } else if thread_matches(threads[k - 1], query) {
        threads_matching(threads, query, k - 1).push(MentionTarget::Thread((k - 1) as usize))
    } else {
        threads_matching(threads, query, k - 1)
    }
}

/// People first, then threads.
pub open spec fn matching(threads: Seq<ThreadUiModel>, query: Seq<char>) -> Seq<MentionTarget> {
    people_matching(seed::everyone(), query, seed::everyone().len() as int) + threads_matching(
        threads,
        query,
        threads.len() as int,
    )
}

impl ShellModel {
    /// What has been typed up to the end of the token the caret is in or behind.
    pub open spec fn through_token(self) -> Seq<char> {
        let behind = self.composer.behind_caret();
        self.composer.before_caret() + behind.take(words::handle_run(behind, 0))
    }

    /// What follows that token.
    pub open spec fn past_token(self) -> Seq<char> {
        let behind = self.composer.behind_caret();
        behind.skip(words::handle_run(behind, 0))
    }

    /// What the picker lists: who matches the `@token` under the caret.
    pub open spec fn candidates(self) -> Seq<MentionTarget> {
        match words::query_in(self.through_token()) {
            Some(query) => matching(self.threads, text::lowercase_of(query)),
            None => Seq::empty(),
        }
    }

    pub open spec fn picker_shown(self) -> bool {
        !self.picker_dismissed && self.candidates().len() > 0
    }

    /// The row of the picker that is highlighted.
    pub open spec fn highlighted(self) -> int {
        if self.mention_sel < self.candidates().len() {
            self.mention_sel as int
        } else {
            self.candidates().len() - 1
        }
    }

    /// What is typed to address a target.
    pub open spec fn handle_of(self, target: MentionTarget) -> Seq<char> {
        match target {
            MentionTarget::Actor(i) => seed::everyone()[i as int].handle,
            MentionTarget::Thread(i) => self.threads[i as int].seed.slug,
        }
    }

    /// There is such a person, or such a thread.
    pub open spec fn addresses(self, target: MentionTarget) -> bool {
        match target {
            MentionTarget::Actor(i) => i < seed::everyone().len(),
            MentionTarget::Thread(i) => i < self.threads.len(),
        }
    }

    /// With the whole token under the caret replaced by a mention, and the caret
    /// behind that. What stood before the token and what follows it stays.
    pub open spec fn mention_completed(self, target: MentionTarget) -> ShellModel {
        let done = words::completed(self.through_token(), self.handle_of(target));
        let typed = self.with_typed(done + self.past_token());
        ShellModel {
            composer: typed.composer.moved_to(offset::byte_len(done) as int),
            ..typed
        }
    }

    /// After the composer reported something, with the turn that starts, if one
    /// does. While the picker is open, it is the picker that Enter, Tab, Escape
    /// and the arrows are about.
    pub open spec fn handled(self, event: ComposerEvent) -> (ShellModel, Option<TurnModel>) {
        let picker = self.picker_shown();
        match event {
            ComposerEvent::Changed => (
                ShellModel { picker_dismissed: false, mention_sel: 0, ..self },
                None,
            ),
            ComposerEvent::Submit => if picker {
                (self.mention_completed(self.candidates()[self.highlighted()]), None)
            } else {
                self.committed()
            },
            ComposerEvent::Complete => if picker {
                (self.mention_completed(self.candidates()[self.highlighted()]), None)
            } else {
                (self, None)
            },
            ComposerEvent::Cancel => if picker {
                (ShellModel { picker_dismissed: true, ..self }, None)
            } else {
                (ShellModel { target: None, ..self.with_nothing_typed() }, None)
            },
            ComposerEvent::MoveUp => if picker && self.mention_sel > 0 {
                (ShellModel { mention_sel: (self.mention_sel - 1) as usize, ..self }, None)
            } else {
                (self, None)
            },
            ComposerEvent::MoveDown => if picker {
                (
                    ShellModel {
                        mention_sel: if self.mention_sel + 1 < self.candidates().len() {
                            (self.mention_sel + 1) as usize
                        } else {
                            (self.candidates().len() - 1) as usize
                        },
                        ..self
                    },
                    None,
                )
            } else {
                (self, None)
            },
        }
    }
}

proof fn lemma_people_matching(actors: Seq<SeedActorModel>, query: Seq<char>, n: int)
    requires
        0 <= n <= actors.len() <= usize::MAX,
    ensures
        forall|t: MentionTarget| #[trigger]
            people_matching(actors, query, n).contains(t) <==> (t matches MentionTarget::Actor(i)
                && i < n && person_matches(actors[i as int], query)),
    decreases n,
{
    if n > 0 {
        lemma_people_matching(actors, query, n - 1);
        let before = people_matching(actors, query, n - 1);
        let all = people_matching(actors, query, n);
        assert forall|t: MentionTarget| #[trigger] all.contains(t) <==> (
        t matches MentionTarget::Actor(i) && i < n && person_matches(actors[i as int], query)) by {
            if all.contains(t) {
                let j = choose|j: int| 0 <= j < all.len() && all[j] == t;
                if j < before.len() {
                    assert(before[j] == t);
                    assert(before.contains(t));
                }
            }
            if t matches MentionTarget::Actor(i) && i < n && person_matches(
                actors[i as int],
                query,
            ) {
                if t->Actor_0 < n - 1 {
                    assert(before.contains(t));
                    let j = choose|j: int| 0 <= j < before.len() && before[j] == t;
                    assert(all[j] == t);
                } else {
                    assert(all[all.len() - 1] == t);
                }
            }
        }
    }
}

proof fn lemma_threads_matching(threads: Seq<ThreadUiModel>, query: Seq<char>, n: int)
    requires
        0 <= n <= threads.len() <= usize::MAX,
    ensures
        forall|t: MentionTarget| #[trigger]
            threads_matching(threads, query, n).contains(t) <==> (
            t matches MentionTarget::Thread(i) && i < n && thread_matches(
                threads[i as int],
                query,
            )),
    decreases n,
{
    if n > 0 {
        lemma_threads_matching(threads, query, n - 1);
        let before = threads_matching(threads, query, n - 1);
        let all = threads_matching(threads, query, n);
        assert forall|t: MentionTarget| #[trigger] all.contains(t) <==> (
        t matches MentionTarget::Thread(i) && i < n && thread_matches(
            threads[i as int],
            query,
        )) by {
            if all.contains(t) {
                let j = choose|j: int| 0 <= j < all.len() && all[j] == t;
                if j < before.len() {
                    assert(before[j] == t);
                    assert(before.contains(t));
                }
            }
            if t matches MentionTarget::Thread(i) && i < n && thread_matches(
                threads[i as int],
                query,
            ) {
                if t->Thread_0 < n - 1 {
                    assert(before.contains(t));
                    let j = choose|j: int| 0 <= j < before.len() && before[j] == t;
                    assert(all[j] == t);
                } else {
                    assert(all[all.len() - 1] == t);
                }
            }
        }
    }
}

/// The picker lists exactly the people whose handle and the threads whose slug
/// starts with what was typed: never an agent, and never a thread you are not
/// in.
pub proof fn the_picker_lists_people_and_your_threads(
    threads: Seq<ThreadUiModel>,
    query: Seq<char>,
    target: MentionTarget,
)
    requires
        threads.len() <= usize::MAX,
    ensures
        matching(threads, query).contains(target) <==> match target {
            MentionTarget::Actor(i) => {
                &&& i < seed::everyone().len()
                &&& !seed::everyone()[i as int].agent
                &&& text::starts_with(text::lowercase_of(seed::everyone()[i as int].handle), query)
            },
            MentionTarget::Thread(i) => {
                &&& i < threads.len()
                &&& threads[i as int].seed.participants.contains(seed::ME)
                &&& threads[i as int].seed.slug.len() > 0
                &&& text::starts_with(
                    text::lowercase_of(threads[i as int].seed.slug),
                    query,
                )
            },
        },
{
    let people = people_matching(seed::everyone(), query, seed::everyone().len() as int);
    let rest = threads_matching(threads, query, threads.len() as int);
    lemma_people_matching(seed::everyone(), query, seed::everyone().len() as int);
    lemma_threads_matching(threads, query, threads.len() as int);
    let all = matching(threads, query);
    if all.contains(target) {
        let j = choose|j: int| 0 <= j < all.len() && all[j] == target;
        if j < people.len() {
            assert(people[j] == target);
            assert(people.contains(target));
        } else {
            assert(rest[j - people.len()] == target);
            assert(rest.contains(target));
        }
    }
    if people.contains(target) {
        let j = choose|j: int| 0 <= j < people.len() && people[j] == target;
        assert(all[j] == target);
    }
    if rest.contains(target) {
        let j = choose|j: int| 0 <= j < rest.len() && rest[j] == target;
        assert(all[j + people.len()] == target);
    }
}

/// Completing a mention closes the picker, and puts the caret behind the
/// mention.
pub proof fn completing_a_mention_closes_the_picker(m: ShellModel, target: MentionTarget)
    ensures
        !m.mention_completed(target).picker_shown(),
        m.through_token() + m.past_token() == m.composer.content,
        m.mention_completed(target).composer.content == words::completed(
            m.through_token(),
            m.handle_of(target),
        ) + m.past_token(),
        m.mention_completed(target).composer.behind_caret() == m.past_token(),
        m.mention_completed(target).composer.before_caret() == words::completed(
            m.through_token(),
            m.handle_of(target),
        ),
{
    let done = words::completed(m.through_token(), m.handle_of(target));
    let rest = m.past_token();
    let behind = m.composer.behind_caret();
    let n = words::handle_run(behind, 0);
    words::lemma_handle_run(behind, 0);
    offset::an_offset_splits_the_text(m.composer.content, m.composer.caret());
    assert(m.through_token() + m.past_token() =~= m.composer.content) by {
        assert(behind.take(n) + behind.skip(n) =~= behind);
    }
    assert(words::handle_run(rest, 0) == 0);
    let all = done + rest;
    let k = done.len() as int;
    offset::lemma_concat_bytes(done, rest, 0);
    offset::lemma_seek8_at(all, k);
    assert(all.take(k) =~= done);
    assert(all.skip(k) =~= rest);
    assert(done + rest.take(0) =~= done);
    words::completing_closes_the_picker(m.through_token(), m.handle_of(target));
}

/// Wherever in a token the caret is, completing replaces the whole of it: the
/// text becomes what stood before the `@`, the mention and a space, and what
/// followed the token.
pub proof fn the_whole_token_is_replaced(
    m: ShellModel,
    target: MentionTarget,
    before: Seq<char>,
    token: Seq<char>,
)
    requires
        m.through_token() == before.push('@') + token,
        !token.contains('@'),
    ensures
        m.mention_completed(target).composer.content == (before.push('@') + m.handle_of(
            target,
        )).push(' ') + m.past_token(),
{
    let typed = m.through_token();
    let at = before.len() as int;
    assert(typed[at] == '@');
    assert forall|k: int| at + 1 <= k < typed.len() implies #[trigger] typed[k] != '@' by {
        assert(typed[k] == token[k - at - 1]);
        assert(token.contains(token[k - at - 1]));
    }
    text::lemma_after_last_at(typed, '@', at + 1);
    assert(typed.take(at) =~= before);
}

/// Who matches what was typed, in lower case. People first, then threads.
pub fn candidates_for(threads: &Vec<ThreadUi>, query: &str) -> (r: Vec<MentionTarget>)
    ensures
        r@ == matching(threads.deep_view(), query@),
{
    let ghost all = threads.deep_view();
    let actors = seed::actors();
    let ghost who = actors.deep_view();
    let mut out: Vec<MentionTarget> = Vec::new();
    let mut i: usize = 0;
    while i < actors.len()
        invariant
            who == actors.deep_view(),
            i <= actors.len(),
            out@ == people_matching(who, query@, i as int),
        decreases actors.len() - i,
    {
        assert(who[i as int] == actors@[i as int].deep_view());
        if !actors[i].agent && text::has_prefix(actors[i].handle.to_lowercase().as_str(), query) {
            out.push(MentionTarget::Actor(i));
        }
        i += 1;
    }
    let ghost people = out@;
    let mut j: usize = 0;
    assert(out@ =~= people + threads_matching(all, query@, 0));
    while j < threads.len()
        invariant
            all == threads.deep_view(),
            j <= threads.len(),
            out@ == people + threads_matching(all, query@, j as int),
        decreases threads.len() - j,
    {
        assert(all[j as int] == threads@[j as int].deep_view());
        if threads[j].seed.is_addressable_by(seed::ME) && text::has_prefix(
            threads[j].seed.slug.to_lowercase().as_str(),
            query,
        ) {
            out.push(MentionTarget::Thread(j));
            assert(out@ =~= people + threads_matching(all, query@, j + 1));
        }
        j += 1;
    }
    out
}

impl Shell {
    /// The `@token` under the caret, if there is one.
    pub fn mention_query(typed: &str) -> (r: Option<&str>)
        ensures
            r.deep_view() == words::query_in(typed@),
            words::asks(typed@, r.deep_view()),
    {
        words::mention_query(typed)
    }

    /// What has been typed up to the end of the token under the caret, and what
    /// follows it.
    fn split_at_token(&self) -> (r: (String, String))
        ensures
            r.0@ == self.deep_view().through_token(),
            r.1@ == self.deep_view().past_token(),
    {
        let mut through = self.composer.text_before_caret();
        let behind = self.composer.text_behind_caret();
        let n = words::handle_prefix(behind.as_str());
        let chars = text::to_chars(behind.as_str());
        let token = text::from_chars(&chars, 0, n);
        let past = text::from_chars(&chars, n, chars.len());
        assert(token@ =~= behind@.take(n as int));
        assert(past@ =~= behind@.skip(n as int));
        through.append(token.as_str());
        (through, past)
    }

    /// The row of the picker that is highlighted, while it is open.
    pub fn highlighted_row(&self) -> (r: Option<usize>)
        ensures
            match r {
                Some(row) => self.deep_view().picker_shown() && row
                    == self.deep_view().highlighted(),
                None => !self.deep_view().picker_shown(),
            },
    {
        let n = self.mention_candidates().len();
        if self.picker_dismissed || n == 0 {
            None
        } else if self.mention_sel < n {
            Some(self.mention_sel)
        } else {
            Some(n - 1)
        }
    }

    /// People, and threads you are in. Agents are never listed -- to reach the
    /// agent in another thread you address the thread.
    pub fn mention_candidates(&self) -> (r: Vec<MentionTarget>)
        ensures
            r@ == self.deep_view().candidates(),
    {
        let (typed, _) = self.split_at_token();
        match Self::mention_query(typed.as_str()) {
            Some(query) => candidates_for(&self.threads, query.to_lowercase().as_str()),
            None => Vec::new(),
        }
    }

    pub fn picker_open(&self) -> (r: bool)
        ensures
            r == self.deep_view().picker_shown(),
    {
        !self.picker_dismissed && self.mention_candidates().len() > 0
    }

    pub fn complete_mention(&mut self, target: MentionTarget)
        requires
            old(self).deep_view().addresses(target),
        ensures
            final(self).deep_view() == old(self).deep_view().mention_completed(target),
    {
        let handle = match target {
            MentionTarget::Actor(i) => seed::actor(i).handle,
            MentionTarget::Thread(i) => {
                assert(self.deep_view().threads[i as int] == self.threads@[i as int].deep_view());
                self.threads[i].seed.slug
            },
        };
        let (through, past) = self.split_at_token();
        let mut typed = words::complete_with(through.as_str(), handle);
        let caret = offset::text_len(typed.as_str());
        typed.append(past.as_str());
        self.set_composer(typed.as_str());
        self.composer.move_to(caret);
    }

    /// The field reports what happened; the shell decides what it means.
    pub fn on_composer_event(&mut self, event: ComposerEvent) -> (r: Option<Turn>)
        requires
            old(self).deep_view().well_formed(),
            event == ComposerEvent::Submit ==> old(self).deep_view().can_commit(),
        ensures
            final(self).deep_view() == old(self).deep_view().handled(event).0,
            r.deep_view() == old(self).deep_view().handled(event).1,
            final(self).deep_view().well_formed(),
    {
        let ghost m = self.deep_view();
        let candidates = self.mention_candidates();
        let n = candidates.len();
        let picker = !self.picker_dismissed && n > 0;
        match event {
            ComposerEvent::Changed => {
                self.picker_dismissed = false;
                self.mention_sel = 0;
                None
            },
            ComposerEvent::Submit => {
                if !picker {
                    return self.commit();
                }
                self.take_candidate(&candidates);
                None
            },
            ComposerEvent::Complete => {
                if picker {
                    self.take_candidate(&candidates);
                }
                None
            },
            ComposerEvent::Cancel => {
                if picker {
                    self.picker_dismissed = true;
                } else {
                    self.target = None;
                    self.clear_composer();
                }
                None
            },
            ComposerEvent::MoveUp => {
                if picker && self.mention_sel > 0 {
                    self.mention_sel = self.mention_sel - 1;
                }
                None
            },
            ComposerEvent::MoveDown => {
                if picker {
                    self.mention_sel = if self.mention_sel < n - 1 {
                        self.mention_sel + 1
                    } else {
                        n - 1
                    };
                }
                None
            },
        }
    }

    /// Takes the highlighted suggestion.
    fn take_candidate(&mut self, candidates: &Vec<MentionTarget>)
        requires
            old(self).deep_view().well_formed(),
            candidates@ == old(self).deep_view().candidates(),
            candidates.len() > 0,
        ensures
            final(self).deep_view() == old(self).deep_view().mention_completed(
                old(self).deep_view().candidates()[old(self).deep_view().highlighted()],
            ),
            final(self).deep_view().well_formed(),
    {
        let ghost m = self.deep_view();
        let at = if self.mention_sel < candidates.len() {
            self.mention_sel
        } else {
            candidates.len() - 1
        };
        let pick = candidates[at];
        proof {
            let query = text::lowercase_of(words::query_in(m.through_token())->0);
            assert(m.candidates() == matching(m.threads, query));
            assert(matching(m.threads, query).contains(pick));
            the_picker_lists_people_and_your_threads(m.threads, query, pick);
        }
        self.complete_mention(pick);
    }
}

// ------------------------------------------------------------------- laws --

/// The token the caret is in or behind ends with the last character in a row that can
/// stand in a handle.
pub proof fn a_token_ends_where_handles_do(m: ShellModel, run: Seq<char>, rest: Seq<char>)
    requires
        m.composer.behind_caret() == run + rest,
        forall|i: int| 0 <= i < run.len() ==> words::in_a_handle(#[trigger] run[i]),
        rest.len() > 0 ==> !words::in_a_handle(rest[0]),
    ensures
        m.through_token() == m.composer.before_caret() + run,
        m.past_token() == rest,
{
    let behind = run + rest;
    let n = words::handle_run(behind, 0);
    words::lemma_handle_run(behind, 0);
    if n < run.len() {
        assert(behind[n] == run[n]);
    }
    if n > run.len() {
        assert(behind[run.len() as int] == rest[0]);
    }
    assert(behind.take(n) =~= run);
    assert(behind.skip(n) =~= rest);
}

/// The picker lists people first, then threads, each in their own order and once: the
/// people whose handle starts with what was typed, however it is capitalised, and the
/// threads you are in whose short name does. It lists nothing where there is no token.
pub proof fn the_picker_lists_in_order(m: ShellModel) -> (parts: (
    Seq<MentionTarget>,
    Seq<MentionTarget>,
))
    ensures
        words::query_in(m.through_token()) is None ==> m.candidates().len() == 0,
        words::query_in(m.through_token()) matches Some(query) ==> {
            let lower = text::lowercase_of(query);
            &&& m.candidates() == parts.0 + parts.1
            &&& lists::picks(
                parts.0,
                seed::everyone().len() as int,
                |i: int|
                    !seed::everyone()[i].agent && text::starts_with(
                        text::lowercase_of(seed::everyone()[i].handle),
                        lower,
                    ),
                |i: int| MentionTarget::Actor(i as usize),
            )
            &&& lists::picks(
                parts.1,
                m.threads.len() as int,
                |i: int|
                    m.threads[i].seed.participants.contains(seed::ME)
                        && m.threads[i].seed.slug.len() > 0 && text::starts_with(
                        text::lowercase_of(m.threads[i].seed.slug),
                        lower,
                    ),
                |i: int| MentionTarget::Thread(i as usize),
            )
        },
{
    if words::query_in(m.through_token()) is None {
        (Seq::empty(), Seq::empty())
    } else {
        let lower = text::lowercase_of(words::query_in(m.through_token())->0);
        let who = seed::everyone();
        let people = |k: int| people_matching(who, lower, k);
        let is_person = |i: int|
            !seed::everyone()[i].agent && text::starts_with(
                text::lowercase_of(seed::everyone()[i].handle),
                lower,
            );
        let actor = |i: int| MentionTarget::Actor(i as usize);
        assert forall|k: int| 0 <= k < who.len() implies #[trigger] lists::picks_next(
            people,
            k,
            is_person,
            actor,
        ) by {}
        lists::lemma_picks(people, who.len() as int, is_person, actor);
        let mine = |k: int| threads_matching(m.threads, lower, k);
        let is_mine = |i: int|
            m.threads[i].seed.participants.contains(seed::ME) && m.threads[i].seed.slug.len() > 0
                && text::starts_with(text::lowercase_of(m.threads[i].seed.slug), lower);
        let thread = |i: int| MentionTarget::Thread(i as usize);
        assert forall|k: int| 0 <= k < m.threads.len() implies #[trigger] lists::picks_next(
            mine,
            k,
            is_mine,
            thread,
        ) by {}
        lists::lemma_picks(mine, m.threads.len() as int, is_mine, thread);
        (
            people_matching(who, lower, who.len() as int),
            threads_matching(m.threads, lower, m.threads.len() as int),
        )
    }
}

/// While the picker has something to list and was not dismissed, Enter and Tab take the
/// highlighted row, Escape only dismisses it, and the arrows move the highlight by one
/// and no further than the ends. Otherwise Enter commits, Escape gives up what was typed
/// and where, and the rest does nothing. Typing brings the picker back, at its top.
pub proof fn keys_go_to_the_picker_first(m: ShellModel)
    requires
        m.candidates().len() <= usize::MAX,
    ensures
        ({
            let open = !m.picker_dismissed && m.candidates().len() > 0;
            let n = m.candidates().len() as int;
            let row = if m.mention_sel < n {
                m.mention_sel as int
            } else {
                n - 1
            };
            let taken = (m.mention_completed(m.candidates()[row]), None::<TurnModel>);
            let up = ShellModel { mention_sel: (m.mention_sel - 1) as usize, ..m };
            let down = ShellModel { mention_sel: (m.mention_sel + 1) as usize, ..m };
            &&& m.handled(ComposerEvent::Submit) == if open {
                taken
            } else {
                m.committed()
            }
            &&& m.handled(ComposerEvent::Complete) == if open {
                taken
            } else {
                (m, None)
            }
            &&& open ==> m.handled(ComposerEvent::Cancel) == (
                ShellModel { picker_dismissed: true, ..m },
                None::<TurnModel>,
            )
            &&& !open ==> m.handled(ComposerEvent::Cancel) == (
                ShellModel {
                    target: None,
                    composer: m.composer.with_text(Seq::empty()),
                    picker_dismissed: false,
                    mention_sel: 0,
                    ..m
                },
                None::<TurnModel>,
            )
            &&& m.handled(ComposerEvent::MoveUp) == (
                if open && m.mention_sel > 0 {
                    up
                } else {
                    m
                },
                None::<TurnModel>,
            )
            &&& open ==> m.handled(ComposerEvent::MoveDown) == (
                if m.mention_sel < n - 1 {
                    down
                } else {
                    ShellModel { mention_sel: (n - 1) as usize, ..m }
                },
                None::<TurnModel>,
            )
            &&& !open ==> m.handled(ComposerEvent::MoveDown) == (m, None::<TurnModel>)
            &&& m.handled(ComposerEvent::Changed) == (
                ShellModel { picker_dismissed: false, mention_sel: 0, ..m },
                None::<TurnModel>,
            )
        }),
{
}

/// An actor is addressed by handle, a thread by its short name. Taking a row changes
/// what is typed and closes the picker's highlight, and nothing else.
pub proof fn taking_a_row_only_types(m: ShellModel, i: usize, target: MentionTarget)
    ensures
        m.handle_of(MentionTarget::Actor(i)) == seed::everyone()[i as int].handle,
        m.handle_of(MentionTarget::Thread(i)) == m.threads[i as int].seed.slug,
        ({
            let after = m.mention_completed(target);
            after == ShellModel {
                composer: after.composer,
                picker_dismissed: false,
                mention_sel: 0,
                ..m
            }
        }),
{
}

/// A picker's row shows an actor's colour, handle and role, or a thread's short name and
/// title with a dot that is green while its agent works.
pub proof fn a_row_shows_who_it_is(m: ShellModel, i: usize)
    ensures
        ({
            let actor = seed::everyone()[i as int];
            let (dot, name, note) = m.candidate_row(MentionTarget::Actor(i));
            dot == actor.color && name == seq!['@'] + actor.handle && note == actor.role
        }),
        ({
            let thread = m.threads[i as int];
            let (dot, name, note) = m.candidate_row(MentionTarget::Thread(i));
            &&& name == seq!['@'] + thread.seed.slug
            &&& note == thread.seed.title
            &&& thread.agent_busy ==> dot == 0x4A9E5C
            &&& !thread.agent_busy ==> dot == 0x555555
        }),
{
    reveal_strlit("@");
    assert("@"@ =~= seq!['@']);
}

} // verus!
