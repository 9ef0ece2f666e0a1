//! The scripted demos: the shell drives its own state and types into its own
//! composer, so nothing depends on synthetic keystrokes.

use vstd::prelude::*;

use crate::lists;
use crate::model::comment::Delivery;
use crate::seed;
use crate::shell::opening;
use crate::shell::state::{
    Beat, BeatModel, Forwarding, Pane, Proactive, Release, ReleaseModel, Shell, ShellModel, Turn,
    TurnModel,
};
use crate::shell::threads::{Target, ThreadUiModel, UiCommentModel};
use crate::text;

verus! {

/// How long a scripted key takes.
pub const KEY_MILLIS: u64 = 36;

/// `typed`, key by key.
pub open spec fn keys(typed: Seq<char>) -> Seq<(u64, BeatModel)>
    decreases typed.len(),
{
    if typed.len() == 0 {
        Seq::empty()
    } else {
        keys(typed.drop_last()).push((KEY_MILLIS, BeatModel::Key(seq![typed.last()])))
    }
}

pub const ASK_ABOUT: &'static str = "ciskafyi do we already have an acronym table somewhere, or is this a new one?";

pub const WARN_ABOUT: &'static str = "heads up - this adds a display-name fallback in model_catalog.rs. you are on the divider spacing work, are you in this file too?";

/// The script, in the order a person would perform it.
pub open spec fn people_script() -> Seq<(u64, BeatModel)> {
    let to_the_first_key = seq![
        (700u64, BeatModel::Thread(seed::LABELS@)),
        (500u64, BeatModel::Pause),
        (700u64, BeatModel::Select(Target::Prose(4))),
        (600u64, BeatModel::Pause),
    ];
    let to_the_diff = seq![
        (700u64, BeatModel::Commit),
        (2000u64, BeatModel::Pause),
        (700u64, BeatModel::Select(Target::Diff(2, 14))),
        (500u64, BeatModel::Pause),
    ];
    let to_the_end = seq![
        (1000u64, BeatModel::OpenForward),
        (1500u64, BeatModel::ForwardTo(seed::JITTER@)),
        (1600u64, BeatModel::Pause),
        (600u64, BeatModel::Thread(seed::JITTER@)),
        (3000u64, BeatModel::Pause),
    ];
    to_the_first_key + keys("@fran"@) + seq![(1100u64, BeatModel::Pause)] + keys(ASK_ABOUT@)
        + to_the_diff + keys(WARN_ABOUT@) + to_the_end
}

/// The script of the workspace noticing.
pub open spec fn workspace_script() -> Seq<(u64, BeatModel)> {
    seq![
        (300u64, BeatModel::Mode(Proactive::Manual)),
        (900u64, BeatModel::Thread(seed::KEYBINDING@)),
        (6000u64, BeatModel::Pause),
        (1000u64, BeatModel::Channel),
        (4000u64, BeatModel::Pause),
        (600u64, BeatModel::Mode(Proactive::Auto)),
        (6000u64, BeatModel::Pause),
        (900u64, BeatModel::Thread(seed::WRAPPING@)),
        (4500u64, BeatModel::Pause),
    ]
}

/// The orchestrator has already raised something, and you meet it where it
/// landed rather than on a dashboard.
pub fn demo_script_v2() -> (r: Vec<(u64, Beat)>)
    ensures
        r.deep_view() == workspace_script(),
{
    let mut beats: Vec<(u64, Beat)> = Vec::new();
    // 1. It was already raised, in a thread, before anyone went looking.
    beats.push((300, Beat::Mode(Proactive::Manual)));
    beats.push((900, Beat::Thread(seed::KEYBINDING)));
    beats.push((6000, Beat::Pause));
    // 2. The board: raised in both, neither agent told yet.
    beats.push((1000, Beat::Channel));
    beats.push((4000, Beat::Pause));
    // 3. Handed to auto. One lands at 2s, the other at 10s, so you watch a
    //    single row turn green rather than everything at once.
    beats.push((600, Beat::Mode(Proactive::Auto)));
    beats.push((6000, Beat::Pause));
    // 4. And in the thread that went green, the agent has it.
    beats.push((900, Beat::Thread(seed::WRAPPING)));
    beats.push((4500, Beat::Pause));
    assert(beats.deep_view() =~= workspace_script());
    beats
}

/// Adds one beat.
fn beat(beats: &mut Vec<(u64, Beat)>, millis: u64, beat: Beat)
    ensures
        final(beats).deep_view() == old(beats).deep_view().push((millis, beat.deep_view())),
{
    beats.push((millis, beat));
    assert(beats.deep_view() =~= old(beats).deep_view().push((millis, beat.deep_view())));
}

/// Adds a beat for every key of a text.
fn say(beats: &mut Vec<(u64, Beat)>, text: &str)
    ensures
        final(beats).deep_view() == old(beats).deep_view() + keys(text@),
{
    let ghost before = beats.deep_view();
    let chars = text::to_chars(text);
    let mut i: usize = 0;
    assert(beats.deep_view() =~= before + keys(text@.take(0)));
    while i < chars.len()
        invariant
            chars@ == text@,
            i <= chars.len(),
            beats.deep_view() == before + keys(text@.take(i as int)),
        decreases chars.len() - i,
    {
        beat(beats, KEY_MILLIS, Beat::Key(chars[i]));
        assert(text@.take(i + 1).drop_last() =~= text@.take(i as int));
        i += 1;
        assert(beats.deep_view() =~= before + keys(text@.take(i as int)));
    }
    assert(text@.take(text@.len() as int) =~= text@);
}

/// The script, in the order a person would perform it.
///
/// Written for what someone actually knows at the time. You cannot see another
/// thread's diff, so nothing here quotes their code. What you do know is what
/// *you* are about to change and roughly what they are working on -- which is
/// exactly enough to send a heads-up and not enough to be sure it matters.
pub fn demo_script() -> (r: Vec<(u64, Beat)>)
    ensures
        r.deep_view() == people_script(),
{
    let mut beats: Vec<(u64, Beat)> = Vec::new();
    beat(&mut beats, 700, Beat::Thread(seed::LABELS));
    beat(&mut beats, 500, Beat::Pause);

    // 1. a question about what the agent just did, addressed to a person
    beat(&mut beats, 700, Beat::Select(Target::Prose(4)));
    beat(&mut beats, 600, Beat::Pause);
    say(&mut beats, "@fran");
    beat(&mut beats, 1100, Beat::Pause);
    say(&mut beats, ASK_ABOUT);
    beat(&mut beats, 700, Beat::Commit);
    beat(&mut beats, 2000, Beat::Pause);

    // 2. a heads-up to a thread that is probably in the same file. You do not
    //    know what they wrote and the note does not pretend to.
    beat(&mut beats, 700, Beat::Select(Target::Diff(2, 14)));
    beat(&mut beats, 500, Beat::Pause);
    say(&mut beats, WARN_ABOUT);
    beat(&mut beats, 1000, Beat::OpenForward);
    beat(&mut beats, 1500, Beat::ForwardTo(seed::JITTER));
    beat(&mut beats, 1600, Beat::Pause);

    // 3. it is waiting over there, re-anchored to that worktree's line numbers
    beat(&mut beats, 600, Beat::Thread(seed::JITTER));
    beat(&mut beats, 3000, Beat::Pause);
    assert(beats.deep_view() =~= people_script());
    beats
}

impl ShellModel {
    /// The delay before a beat, if there is one.
    pub open spec fn delay(self, index: int) -> Option<u64> {
        if 0 <= index < self.demo.len() {
            Some(self.demo[index].0)
        } else {
            None
        }
    }

    /// With the demo that was asked for.
    pub open spec fn scripted(self, asked: Option<Seq<char>>) -> ShellModel {
        match asked {
            Some(which) => ShellModel {
                demo: if which == "v2"@ {
                    workspace_script()
                } else {
                    people_script()
                },
                ..self
            },
            None => self,
        }
    }

    /// With the first finding held in the current thread let through.
    pub open spec fn first_approved(self) -> ShellModel {
        match lists::find(
            self.current().comments,
            |c: UiCommentModel| c.delivery == Delivery::Proposed,
        ) {
            Some(c) => self.answered(c.id, true),
            None => self,
        }
    }

    /// On the thread with that title, if there is one.
    pub open spec fn title_followed(self, title: Seq<char>) -> ShellModel {
        match opening::place_titled(self.threads, title) {
            Some(i) => self.followed(i as usize),
            None => self,
        }
    }

    /// With the selection handed to the thread with that title, if there is one.
    pub open spec fn forwarded_to_title(self, title: Seq<char>) -> ShellModel {
        match opening::place_titled(self.threads, title) {
            Some(i) => self.forwarded(Forwarding::Selection, i as usize),
            None => self,
        }
    }

    /// After one beat, with the turn and the releases it starts.
    pub open spec fn played(self, beat: BeatModel) -> (
        ShellModel,
        Option<TurnModel>,
        Seq<ReleaseModel>,
    ) {
        match beat {
            BeatModel::Pause => (self, None, Seq::empty()),
            BeatModel::Mode(mode) => (self.in_mode(mode).0, None, self.in_mode(mode).1),
            BeatModel::Channel => (self.showing(Pane::Channel), None, Seq::empty()),
            BeatModel::ApproveProposal => (self.first_approved(), None, Seq::empty()),
            BeatModel::Thread(title) => (self.title_followed(title), None, Seq::empty()),
            BeatModel::Select(target) => (self.begun(target), None, Seq::empty()),
            BeatModel::Key(typed) => (
                self.with_typed(self.composer.content + typed),
                None,
                Seq::empty(),
            ),
            BeatModel::Commit => (self.committed().0, self.committed().1, Seq::empty()),
            BeatModel::OpenForward => (
                ShellModel { forwarding: Forwarding::Selection, ..self },
                None,
                Seq::empty(),
            ),
            BeatModel::ForwardTo(title) => (
                self.forwarded_to_title(title),
                None,
                Seq::empty(),
            ),
        }
    }
}

impl ShellModel {
    /// There are ids for the comments a beat makes.
    pub open spec fn can_play(self, beat: BeatModel) -> bool {
        match beat {
            BeatModel::Mode(mode) => mode == Proactive::Off || self.next_id + self.threads.len()
                <= u32::MAX,
            BeatModel::Commit => self.can_commit(),
            BeatModel::ForwardTo(_) => self.next_id < u32::MAX,
            _ => true,
        }
    }
}

/// What came of a beat, and how long to wait for the next one.
#[derive(Debug)]
pub struct Played {
    pub turn: Option<Turn>,
    pub releases: Vec<Release>,
    pub next: Option<u64>,
}

fn no_releases() -> (r: Vec<Release>)
    ensures
        r.deep_view() == Seq::<ReleaseModel>::empty(),
{
    let none: Vec<Release> = Vec::new();
    assert(none.deep_view() =~= Seq::<ReleaseModel>::empty());
    none
}

impl Shell {
    /// Loads the demo that was asked for, if one was, and says how long to wait
    /// for its first beat.
    pub fn maybe_start_demo(&mut self, asked: Option<&str>) -> (r: Option<u64>)
        requires
            old(self).deep_view().well_formed(),
        ensures
            final(self).deep_view() == old(self).deep_view().scripted(asked.deep_view()),
            r == (if asked is Some {
                final(self).deep_view().delay(0)
            } else {
                None
            }),
            final(self).deep_view().well_formed(),
    {
        let ghost m = self.deep_view();
        match asked {
            Some(which) => {
                if text::same_text(which, "v2") {
                    self.demo = demo_script_v2();
                    proof {
                        assert(self.deep_view() =~= m.scripted(asked.deep_view()));
                    }
                    self.schedule_beat(0)
                } else {
                    self.start_demo()
                }
            },
            None => None,
        }
    }

    /// Loads the demo of people talking to each other.
    pub fn start_demo(&mut self) -> (r: Option<u64>)
        requires
            old(self).deep_view().well_formed(),
        ensures
            final(self).deep_view() == (ShellModel { demo: people_script(), ..old(
                self,
            ).deep_view() }),
            r == final(self).deep_view().delay(0),
            final(self).deep_view().well_formed(),
    {
        self.demo = demo_script();
        proof {
            lemma_people_script_is_valid();
        }
        self.schedule_beat(0)
    }

    /// How long to wait before a beat, if there is one.
    pub fn schedule_beat(&self, index: usize) -> (r: Option<u64>)
        ensures
            r == self.deep_view().delay(index as int),
    {
        if index < self.demo.len() {
            assert(self.deep_view().demo[index as int] == self.demo@[index as int].deep_view());
            Some(self.demo[index].0)
        } else {
            None
        }
    }

    /// Plays one beat.
    pub fn play_beat(&mut self, index: usize) -> (r: Played)
        requires
            old(self).deep_view().well_formed(),
            index < old(self).demo.len() ==> old(self).deep_view().can_play(
                old(self).deep_view().demo[index as int].1,
            ),
        ensures
            ({
                let m = old(self).deep_view();
                if index < m.demo.len() {
                    let after = m.played(m.demo[index as int].1);
                    &&& final(self).deep_view() == after.0
                    &&& r.turn.deep_view() == after.1
                    &&& r.releases.deep_view() == after.2
                    &&& r.next == m.delay(index + 1)
                } else {
                    &&& final(self).deep_view() == m
                    &&& r.turn is None
                    &&& r.releases.deep_view().len() == 0
                    &&& r.next is None
                }
            }),
            final(self).deep_view().well_formed(),
    {
        let ghost m = self.deep_view();
        if index >= self.demo.len() {
            return Played { turn: None, releases: no_releases(), next: None };
        }
        assert(m.demo[index as int] == self.demo@[index as int].deep_view());
        let beat = self.demo[index].1;
        let next = if index + 1 < self.demo.len() {
            self.schedule_beat(index + 1)
        } else {
            None
        };
        let (turn, releases) = self.play(beat);
        Played { turn, releases, next }
    }

    /// Does what a beat says.
    fn play(&mut self, beat: Beat) -> (r: (Option<Turn>, Vec<Release>))
        requires
            old(self).deep_view().well_formed(),
            old(self).deep_view().can_play(beat.deep_view()),
            beat.deep_view() matches BeatModel::Select(t) ==> t.valid(),
        ensures
            final(self).deep_view() == old(self).deep_view().played(beat.deep_view()).0,
            r.0.deep_view() == old(self).deep_view().played(beat.deep_view()).1,
            r.1.deep_view() == old(self).deep_view().played(beat.deep_view()).2,
            final(self).deep_view().well_formed(),
    {
        match beat {
            Beat::Pause => (None, no_releases()),
            Beat::Mode(mode) => {
                let releases = self.set_mode(mode);
                (None, releases)
            },
            Beat::Channel => {
                self.show(Pane::Channel);
                (None, no_releases())
            },
            Beat::ApproveProposal => {
                self.approve_first();
                (None, no_releases())
            },
            Beat::Thread(title) => {
                self.follow_title(title);
                (None, no_releases())
            },
            Beat::Select(target) => {
                self.begin(target);
                (None, no_releases())
            },
            Beat::Key(c) => {
                let mut typed = self.composer_text();
                typed.push(c);
                assert(typed@ =~= self.deep_view().composer.content + seq![c]);
                self.set_composer(typed.as_str());
                (None, no_releases())
            },
            Beat::Commit => {
                let turn = self.commit();
                (turn, no_releases())
            },
            Beat::OpenForward => {
                self.forwarding = Forwarding::Selection;
                (None, no_releases())
            },
            Beat::ForwardTo(title) => {
                self.forward_to_title(title);
                (None, no_releases())
            },
        }
    }

    /// Goes to the thread with that title.
    fn follow_title(&mut self, title: &str)
        requires
            old(self).deep_view().well_formed(),
        ensures
            final(self).deep_view() == old(self).deep_view().title_followed(title@),
            final(self).deep_view().well_formed(),
    {
        if let Some(i) = opening::find_thread(&self.threads, title) {
            self.follow(i);
        }
    }

    /// Hands the selection to the thread with that title.
    fn forward_to_title(&mut self, title: &str)
        requires
            old(self).deep_view().well_formed(),
            old(self).next_id < u32::MAX,
        ensures
            final(self).deep_view() == old(self).deep_view().forwarded_to_title(title@),
            final(self).deep_view().well_formed(),
    {
        if let Some(i) = opening::find_thread(&self.threads, title) {
            self.forward_to(Forwarding::Selection, i);
        }
    }

    /// Approves the first finding held in the current thread.
    fn approve_first(&mut self)
        requires
            old(self).deep_view().well_formed(),
        ensures
            final(self).deep_view() == old(self).deep_view().first_approved(),
            final(self).deep_view().well_formed(),
    {
        let ghost m = self.deep_view();
        let active = self.active;
        let ghost all = m.current().comments;
        let ghost p = |c: UiCommentModel| c.delivery == Delivery::Proposed;
        assert(m.current() == self.threads@[active as int].deep_view());
        let n = self.threads[active].comments.len();
        let mut k: usize = 0;
        while k < n
            invariant
                self.deep_view() == m,
                m == old(self).deep_view(),
                m.well_formed(),
                active == m.active,
                all == m.current().comments,
                all == self.threads@[active as int].comments.deep_view(),
                n == all.len(),
                p == (|c: UiCommentModel| c.delivery == Delivery::Proposed),
                k <= n,
                lists::position(all, p) == lists::position_from(all, p, k as int),
            decreases n - k,
        {
            assert(all[k as int] == self.threads@[active as int].comments@[k as int].deep_view());
            if self.threads[active].comments[k].delivery == Delivery::Proposed {
                let id = self.threads[active].comments[k].id;
                self.resolve_proposal(id, true);
                return;
            }
            k += 1;
        }
    }
}

/// Whatever the beats select is valid.
spec fn selects_validly(beats: Seq<(u64, BeatModel)>) -> bool {
    forall|k: int|
        0 <= k < beats.len() ==> ((#[trigger] beats[k]).1 matches BeatModel::Select(t)
            ==> t.valid())
}

proof fn lemma_keys_select_nothing(typed: Seq<char>)
    ensures
        selects_validly(keys(typed)),
    decreases typed.len(),
{
    if typed.len() > 0 {
        lemma_keys_select_nothing(typed.drop_last());
    }
}

proof fn lemma_selects_validly(a: Seq<(u64, BeatModel)>, b: Seq<(u64, BeatModel)>)
    requires
        selects_validly(a),
        selects_validly(b),
    ensures
        selects_validly(a + b),
{
    assert forall|k: int| 0 <= k < (a + b).len() implies ((#[trigger] (a + b)[k]).1 matches
        BeatModel::Select(t) ==> t.valid()) by {
        if k < a.len() {
            assert((a + b)[k] == a[k]);
        } else {
            assert((a + b)[k] == b[k - a.len()]);
        }
    }
}

proof fn lemma_people_script_is_valid()
    ensures
        selects_validly(people_script()),
{
    let first = seq![
        (700u64, BeatModel::Thread(seed::LABELS@)),
        (500u64, BeatModel::Pause),
        (700u64, BeatModel::Select(Target::Prose(4))),
        (600u64, BeatModel::Pause),
    ];
    let wait = seq![(1100u64, BeatModel::Pause)];
    let second = seq![
        (700u64, BeatModel::Commit),
        (2000u64, BeatModel::Pause),
        (700u64, BeatModel::Select(Target::Diff(2, 14))),
        (500u64, BeatModel::Pause),
    ];
    let third = seq![
        (1000u64, BeatModel::OpenForward),
        (1500u64, BeatModel::ForwardTo(seed::JITTER@)),
        (1600u64, BeatModel::Pause),
        (600u64, BeatModel::Thread(seed::JITTER@)),
        (3000u64, BeatModel::Pause),
    ];
    lemma_keys_select_nothing("@fran"@);
    lemma_keys_select_nothing(ASK_ABOUT@);
    lemma_keys_select_nothing(WARN_ABOUT@);
    lemma_selects_validly(first, keys("@fran"@));
    lemma_selects_validly(first + keys("@fran"@), wait);
    let a = first + keys("@fran"@) + wait;
    lemma_selects_validly(a, keys(ASK_ABOUT@));
    lemma_selects_validly(a + keys(ASK_ABOUT@), second);
    let b = a + keys(ASK_ABOUT@) + second;
    lemma_selects_validly(b, keys(WARN_ABOUT@));
    lemma_selects_validly(b + keys(WARN_ABOUT@), third);
}

// ------------------------------------------------------------------- laws --

/// A text is typed key by key, in order, a key every 36 milliseconds.
pub proof fn a_text_is_typed_key_by_key(typed: Seq<char>)
    ensures
        keys(typed).len() == typed.len(),
        forall|i: int|
            0 <= i < typed.len() ==> #[trigger] keys(typed)[i] == (
                36u64,
                BeatModel::Key(seq![typed[i]]),
            ),
    decreases typed.len(),
{
    if typed.len() > 0 {
        let front = typed.drop_last();
        a_text_is_typed_key_by_key(front);
        assert forall|i: int| 0 <= i < typed.len() implies #[trigger] keys(typed)[i] == (
            36u64,
            BeatModel::Key(seq![typed[i]]),
        ) by {
            if i < front.len() {
                assert(keys(typed)[i] == keys(front)[i]);
                assert(front[i] == typed[i]);
            }
        }
    }
}

/// A beat does what a person would: a key is typed at the end, a span is selected, a note
/// committed, the list of threads opened, the board shown, the mode set; a pause does
/// nothing. Only a note starts a turn, and only a mode brings releases.
pub proof fn a_beat_does_what_a_person_would(
    m: ShellModel,
    typed: Seq<char>,
    target: Target,
    mode: Proactive,
)
    ensures
        m.played(BeatModel::Pause) == (m, None::<TurnModel>, Seq::<ReleaseModel>::empty()),
        m.played(BeatModel::Key(typed)) == (
            (ShellModel {
                composer: m.composer.with_text(m.composer.content + typed),
                picker_dismissed: false,
                mention_sel: 0,
                ..m
            }),
            None::<TurnModel>,
            Seq::<ReleaseModel>::empty(),
        ),
        m.played(BeatModel::Select(target)) == (
            m.begun(target),
            None::<TurnModel>,
            Seq::<ReleaseModel>::empty(),
        ),
        m.played(BeatModel::OpenForward) == (
            (ShellModel { forwarding: Forwarding::Selection, ..m }),
            None::<TurnModel>,
            Seq::<ReleaseModel>::empty(),
        ),
        m.played(BeatModel::Channel) == (
            (ShellModel { view: Pane::Channel, forwarding: Forwarding::Idle, ..m }),
            None::<TurnModel>,
            Seq::<ReleaseModel>::empty(),
        ),
        m.played(BeatModel::Commit) == (
            m.committed().0,
            m.committed().1,
            Seq::<ReleaseModel>::empty(),
        ),
        m.played(BeatModel::Mode(mode)) == (
            m.in_mode(mode).0,
            None::<TurnModel>,
            m.in_mode(mode).1,
        ),
{
}

/// A beat that names a thread means the first with that title: it goes there, or sends
/// the selection there. Where there is none it does nothing.
pub proof fn a_beat_finds_its_thread_by_title(m: ShellModel, title: Seq<char>, i: int)
    ensures
        0 <= i < m.threads.len() && m.threads[i].seed.title == title && (forall|j: int|
            0 <= j < i ==> (#[trigger] m.threads[j]).seed.title != title) ==> {
            &&& m.played(BeatModel::Thread(title)) == (
                m.followed(i as usize),
                None::<TurnModel>,
                Seq::<ReleaseModel>::empty(),
            )
            &&& m.played(BeatModel::ForwardTo(title)) == (
                m.forwarded(Forwarding::Selection, i as usize),
                None::<TurnModel>,
                Seq::<ReleaseModel>::empty(),
            )
        },
        (forall|j: int| 0 <= j < m.threads.len() ==> (#[trigger] m.threads[j]).seed.title != title)
            ==> {
            &&& m.played(BeatModel::Thread(title)) == (
                m,
                None::<TurnModel>,
                Seq::<ReleaseModel>::empty(),
            )
            &&& m.played(BeatModel::ForwardTo(title)) == (
                m,
                None::<TurnModel>,
                Seq::<ReleaseModel>::empty(),
            )
        },
{
    let p = |t: ThreadUiModel| t.seed.title == title;
    lists::lemma_position(m.threads, p);
    if 0 <= i < m.threads.len() && m.threads[i].seed.title == title && (forall|j: int|
        0 <= j < i ==> (#[trigger] m.threads[j]).seed.title != title) {
        lists::lemma_is_position(m.threads, p, i);
    }
}

/// Approving lets the first finding held in the current thread through; where none is
/// held, nothing happens.
pub proof fn approving_takes_the_first_held_finding(m: ShellModel, k: int)
    requires
        m.well_formed(),
    ensures
        ({
            let comments = m.current().comments;
            let held = |j: int|
                0 <= j < comments.len() && comments[j].delivery == Delivery::Proposed;
            let after = m.played(BeatModel::ApproveProposal);
            &&& after.1 is None
            &&& after.2.len() == 0
            &&& held(k) && (forall|j: int| j < k ==> !#[trigger] held(j)) ==> after.0
                == m.with_delivery(m.active as int, k, Delivery::Pending)
            &&& (forall|j: int| !#[trigger] held(j)) ==> after.0 == m
        }),
{
    let comments = m.current().comments;
    let held = |j: int| 0 <= j < comments.len() && comments[j].delivery == Delivery::Proposed;
    let p = |c: UiCommentModel| c.delivery == Delivery::Proposed;
    lists::lemma_position(comments, p);
    if held(k) && (forall|j: int| j < k ==> !#[trigger] held(j)) {
        assert forall|j: int| 0 <= j < k implies !p(#[trigger] comments[j]) by {
            assert(!held(j));
        }
        lists::lemma_is_position(comments, p, k);
        let id = comments[k].id;
        let q = |c: UiCommentModel| c.id == id;
        assert forall|j: int| 0 <= j < k implies !q(#[trigger] comments[j]) by {
            assert(m.threads[m.active as int].comments[j].id != m.threads[m.active as int].comments[k].id);
        }
        lists::lemma_is_position(comments, q, k);
    }
    if forall|j: int| !#[trigger] held(j) {
        assert forall|j: int| 0 <= j < comments.len() implies !p(#[trigger] comments[j]) by {
            assert(!held(j));
        }
    }
}

/// Asking for a demo loads its script and nothing else; each beat waits as long as the
/// script says, and after the last there is nothing to wait for.
pub proof fn a_demo_is_loaded_as_asked(m: ShellModel, which: Seq<char>, i: int)
    ensures
        m.scripted(None) == m,
        m.scripted(Some("v2"@)) == (ShellModel { demo: workspace_script(), ..m }),
        which != "v2"@ ==> m.scripted(Some(which)) == (ShellModel { demo: people_script(), ..m }),
        0 <= i < m.demo.len() ==> m.delay(i) == Some(m.demo[i].0),
        i >= m.demo.len() ==> m.delay(i) is None,
{
}

} // verus!
