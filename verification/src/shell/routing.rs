//! Both halves of the overlap query, surfaced where the decision is made: who
//! already knows this range, and who else is editing it right now.

use std::ops::Range;

use vstd::prelude::*;

use crate::lists;
use crate::model::actor::ActorId;
use crate::model::overlap;
use crate::model::overlap::{
    Conflict, ConflictKind, ConflictModel, HistoricalTouch, HistoricalTouchModel, LiveTouch,
    LiveTouchModel, OverlapIndex,
};
use crate::model::thread::ThreadId;
use crate::order;
use crate::seed;
use crate::shell::state::{Shell, ShellModel};
use crate::shell::threads::{Target, ThreadUiModel};
use crate::text;

verus! {

/// How near a change has to be to be worth saying.
pub const PROXIMITY: u32 = 6;

/// How many conflicts are shown.
pub const SHOWN: usize = 2;

/// Where the first `k` threads are dirty.
pub open spec fn live_touches(threads: Seq<ThreadUiModel>, k: int) -> Seq<LiveTouchModel>
    decreases k,
{
    if k <= 0 {
        Seq::empty()
    } else {
        match threads[k - 1].dirty_lines() {
            Some(lines) => live_touches(threads, k - 1).push(
                LiveTouchModel {
                    thread: ThreadId((k - 1) as u32),
                    file: threads[k - 1].diff_path(),
                    lines,
                    turn: threads[k - 1].turn,
                },
            ),
            None => live_touches(threads, k - 1),
        }
    }
}

/// Who wrote what.
pub open spec fn blame() -> Seq<HistoricalTouchModel> {
    Seq::new(
        seed::BLAME@.len(),
        |i: int|
            HistoricalTouchModel {
                author: ActorId(seed::BLAME@[i].0 as u32),
                file: seed::BLAME@[i].1@,
                lines: Range { start: seed::BLAME@[i].2, end: seed::BLAME@[i].3 },
                commits: seed::BLAME@[i].4,
            },
    )
}

/// What one more thread is told about one that is also in its lines.
pub open spec fn notice(title: Seq<char>, c: ConflictModel) -> Seq<char> {
    (match c.kind {
        ConflictKind::Overlapping => "also editing"@,
        ConflictKind::Adjacent => "editing nearby"@,
    }) + ": "@ + title + " (lines "@ + text::decimal(c.their_lines.start as nat) + "-"@
        + text::decimal((c.their_lines.end - 1) as nat) + ", turn "@ + text::decimal(
        c.their_turn as nat,
    ) + ")"@
}

/// Who to ask, and who else is there.
#[verifier::ext_equal]
pub ghost struct HintsModel {
    pub expert: Option<(usize, Seq<char>)>,
    pub notices: Seq<Seq<char>>,
}

impl ShellModel {
    /// File line numbers the current target covers, if it is in the diff.
    pub open spec fn target_lines(self) -> Option<(Seq<char>, Range<u32>)> {
        let lines = self.current().seed.diff_lines;
        match self.target {
            Some(Target::Diff(a, b)) if a < lines.len() && b < lines.len() => Some(
                (
                    self.current().diff_path(),
                    Range { start: lines[a as int].0, end: (lines[b as int].0 + 1) as u32 },
                ),
            ),
            _ => None,
        }
    }

    /// A conflict with work that is not the same work by another route.
    pub open spec fn unrelated(self, c: ConflictModel) -> bool {
        seed::root(self.threads[c.other_thread.0 as int].seed.title) != seed::root(
            self.current().seed.title,
        )
    }

    /// The conflicts worth saying.
    pub open spec fn conflicts(self, file: Seq<char>, lines: Range<u32>) -> Seq<ConflictModel> {
        lists::kept(
            order::sorted_by(
                overlap::conflicts_among(
                    live_touches(self.threads, self.threads.len() as int),
                    ThreadId(self.active as u32),
                    file,
                    lines,
                    PROXIMITY,
                ),
                |c: ConflictModel| overlap::conflict_rank(c),
            ),
            |c: ConflictModel| self.unrelated(c),
        )
    }

    /// What the first of the conflicts, as many as are shown, say.
    pub open spec fn notices(self, conflicts: Seq<ConflictModel>, k: int) -> Seq<Seq<char>>
        decreases k,
    {
        if k <= 0 {
            Seq::empty()
        } else {
            self.notices(conflicts, k - 1).push(
                notice(
                    self.threads[conflicts[k - 1].other_thread.0 as int].seed.title,
                    conflicts[k - 1],
                ),
            )
        }
    }

    /// What is hinted at the composer, if anything.
    pub open spec fn hints(self) -> Option<HintsModel> {
        match self.target_lines() {
            Some((file, lines)) => {
                let experts = overlap::ranked_experts(blame(), file, lines);
                let conflicts = self.conflicts(file, lines);
                if experts.len() == 0 && conflicts.len() == 0 {
                    None
                } else {
                    Some(
                        HintsModel {
                            expert: if experts.len() > 0 {
                                Some((experts[0].author.0 as usize, experts[0].reason))
                            } else {
                                None
                            },
                            notices: self.notices(
                                conflicts,
                                if conflicts.len() < SHOWN {
                                    conflicts.len() as int
                                } else {
                                    SHOWN as int
                                },
                            ),
                        },
                    )
                }
            },
            None => None,
        }
    }
}

/// Whom the hint suggests, and what it says about the rest.
#[derive(Debug)]
pub struct RoutingHints {
    /// Who to ask, and why.
    pub expert: Option<(usize, String)>,
    /// Who else is editing here.
    pub notices: Vec<String>,
}

impl DeepView for RoutingHints {
    type V = HintsModel;

    open spec fn deep_view(&self) -> HintsModel {
        HintsModel { expert: self.expert.deep_view(), notices: self.notices.deep_view() }
    }
}

proof fn lemma_blame(file: Seq<char>, lines: Range<u32>, author: ActorId)
    ensures
        overlap::lines_by(blame(), file, lines, author) <= 48,
        overlap::commits_by(blame(), file, lines, author) <= 10,
        overlap::lines_by(blame(), file, lines, author) > 0 ==> author.0 < seed::everyone().len(),
{
    let all = blame();
    let three = all.drop_last();
    let two = three.drop_last();
    let one = two.drop_last();
    assert(one.drop_last() =~= Seq::<HistoricalTouchModel>::empty());
    assert(overlap::lines_by(one.drop_last(), file, lines, author) == 0);
    assert(overlap::commits_by(one.drop_last(), file, lines, author) == 0);
    assert(one.last() == all[0]);
    assert(two.last() == all[1]);
    assert(three.last() == all[2]);
    assert(overlap::lines_by(one, file, lines, author) <= 13);
    assert(overlap::lines_by(two, file, lines, author) <= 31);
    assert(overlap::lines_by(three, file, lines, author) <= 34);
    assert(overlap::commits_by(one, file, lines, author) <= 4);
    assert(overlap::commits_by(two, file, lines, author) <= 6);
    assert(overlap::commits_by(three, file, lines, author) <= 7);
}

/// Every live touch is of a thread that exists, and ends behind a line.
proof fn lemma_live_touches(threads: Seq<ThreadUiModel>, k: int)
    requires
        0 <= k <= threads.len() <= u32::MAX,
        forall|i: int| 0 <= i < threads.len() ==> (#[trigger] threads[i]).seed.numbered(),
    ensures
        forall|j: int|
            0 <= j < live_touches(threads, k).len() ==> (#[trigger] live_touches(
                threads,
                k,
            )[j]).thread.0 < threads.len() && live_touches(threads, k)[j].lines.end > 0,
    decreases k,
{
    if k > 0 {
        lemma_live_touches(threads, k - 1);
        let t = threads[k - 1];
        assert(t.seed.numbered());
        if t.has_diff() {
            assert(t.seed.diff_lines[t.seed.diff_lines.len() - 1].0 < u32::MAX);
        }
        let before = live_touches(threads, k - 1);
        let all = live_touches(threads, k);
        assert forall|j: int| 0 <= j < all.len() implies (#[trigger] all[j]).thread.0
            < threads.len() && all[j].lines.end > 0 by {
            if j < before.len() {
                assert(all[j] == before[j]);
            }
        }
    }
}

fn write_notice(title: &str, conflict: &Conflict) -> (r: String)
    requires
        conflict.their_lines.end > 0,
    ensures
        r@ == notice(title@, conflict.deep_view()),
{
    let mut out = match conflict.kind {
        ConflictKind::Overlapping => "also editing".to_owned(),
        ConflictKind::Adjacent => "editing nearby".to_owned(),
    };
    out.append(": ");
    out.append(title);
    out.append(" (lines ");
    out.append(text::write_decimal(conflict.their_lines.start as u128).as_str());
    out.append("-");
    out.append(text::write_decimal((conflict.their_lines.end - 1) as u128).as_str());
    out.append(", turn ");
    out.append(text::write_decimal(conflict.their_turn as u128).as_str());
    out.append(")");
    out
}

impl Shell {
    /// One index serves both questions. Live threads answer "will this
    /// conflict?"; historical authorship answers "who should I ask?".
    pub fn overlap(&self) -> (r: OverlapIndex)
        requires
            self.deep_view().well_formed(),
        ensures
            r.live.deep_view() == live_touches(
                self.deep_view().threads,
                self.threads.len() as int,
            ),
            r.history.deep_view() == blame(),
            r.proximity == PROXIMITY,
    {
        let ghost all = self.threads.deep_view();
        let mut index = OverlapIndex::new(PROXIMITY);
        let mut i: usize = 0;
        while i < self.threads.len()
            invariant
                self.deep_view().well_formed(),
                all == self.threads.deep_view(),
                i <= self.threads.len(),
                index.live.deep_view() == live_touches(all, i as int),
                index.history.deep_view() == Seq::<HistoricalTouchModel>::empty(),
                index.proximity == PROXIMITY,
            decreases self.threads.len() - i,
        {
            assert(all[i as int] == self.threads@[i as int].deep_view());
            assert(all == self.deep_view().threads);
            assert(all[i as int].seed.numbered());
            if let Some(lines) = self.threads[i].dirty_lines() {
                let ghost before = index.live.deep_view();
                let touch = LiveTouch {
                    thread: ThreadId(i as u32),
                    file: self.threads[i].diff_path(),
                    lines,
                    turn: self.threads[i].turn,
                };
                index.live.push(touch);
                assert(index.live.deep_view() =~= before.push(touch.deep_view()));
            }
            i += 1;
        }
        let rows = seed::BLAME;
        let mut k: usize = 0;
        while k < 4
            invariant
                rows == seed::BLAME,
                all == self.threads.deep_view(),
                i == self.threads.len(),
                k <= 4,
                blame().len() == 4,
                index.live.deep_view() == live_touches(all, i as int),
                index.history.deep_view() == blame().take(k as int),
                index.proximity == PROXIMITY,
            decreases 4 - k,
        {
            let ghost before = index.history.deep_view();
            let touch = HistoricalTouch {
                author: ActorId(rows[k].0 as u32),
                file: rows[k].1.to_owned(),
                lines: rows[k].2..rows[k].3,
                commits: rows[k].4,
            };
            index.history.push(touch);
            assert(index.history.deep_view() =~= before.push(blame()[k as int]));
            k += 1;
            assert(index.history.deep_view() =~= blame().take(k as int));
        }
        assert(index.history.deep_view() =~= blame());
        index
    }

    /// File line numbers the current target covers, if it is in the diff.
    pub fn target_file_lines(&self) -> (r: Option<(String, Range<u32>)>)
        requires
            self.deep_view().well_formed(),
        ensures
            match r {
                Some((file, lines)) => self.deep_view().target_lines() == Some((file@, lines))
                    && lines.start <= lines.end,
                None => self.deep_view().target_lines() is None,
            },
    {
        let ghost m = self.deep_view();
        let thread = &self.threads[self.active];
        assert(m.current() == thread.deep_view());
        assert(m.threads[self.active as int].seed.numbered());
        let (a, b) = match self.target {
            Some(Target::Diff(a, b)) => (a, b),
            _ => {
                return None;
            },
        };
        let lines = &thread.seed.diff_lines;
        if a < lines.len() && b < lines.len() {
            assert(m.current().seed.diff_lines[a as int].0 == lines@[a as int].0);
            assert(m.current().seed.diff_lines[b as int].0 == lines@[b as int].0);
            Some((thread.diff_path(), lines[a].0..lines[b].0 + 1))
        } else {
            None
        }
    }

    /// The conflicts worth saying. A branch of this thread is the same work by
    /// another route. It overlaps by construction, and saying so every time is
    /// noise.
    fn worthwhile_conflicts(&self, index: &OverlapIndex, file: &str, lines: &Range<u32>) -> (r: Vec<
        Conflict,
    >)
        requires
            self.deep_view().well_formed(),
            index.live.deep_view() == live_touches(
                self.deep_view().threads,
                self.threads.len() as int,
            ),
            index.proximity == PROXIMITY,
        ensures
            r.deep_view() == self.deep_view().conflicts(file@, *lines),
            forall|k: int|
                0 <= k < r.len() ==> (#[trigger] r.deep_view()[k]).other_thread.0
                    < self.threads.len() && r.deep_view()[k].their_lines.end > 0,
    {
        let ghost m = self.deep_view();
        let found = index.conflicts(ThreadId(self.active as u32), file, lines);
        let ghost all = found.deep_view();
        let ghost p = |c: ConflictModel| m.unrelated(c);
        proof {
            let live = index.live.deep_view();
            overlap::conflict_queries_are_complete_and_ranked(
                live,
                ThreadId(self.active as u32),
                file@,
                *lines,
                PROXIMITY,
            );
            lemma_live_touches(m.threads, m.threads.len() as int);
            assert forall|k: int| 0 <= k < all.len() implies (
            #[trigger] all[k]).other_thread.0 < m.threads.len() && all[k].their_lines.end > 0 by {
                assert(all.contains(all[k]));
                let i = choose|i: int|
                    0 <= i < live.len() && overlap::conflict_with(
                        #[trigger] live[i],
                        ThreadId(self.active as u32),
                        file@,
                        *lines,
                        PROXIMITY,
                    ) == Some(all[k]);
                assert(live[i].thread == all[k].other_thread);
            }
        }
        let mine = seed::transcript_root(self.threads[self.active].seed.title);
        assert(m.current() == self.threads@[self.active as int].deep_view());
        let mut out: Vec<Conflict> = Vec::new();
        let mut k: usize = 0;
        assert(out.deep_view() =~= lists::kept(all.take(0), p));
        while k < found.len()
            invariant
                m == self.deep_view(),
                m.well_formed(),
                all == found.deep_view(),
                p == (|c: ConflictModel| m.unrelated(c)),
                mine@ == seed::root(m.current().seed.title),
                forall|k: int|
                    0 <= k < all.len() ==> (#[trigger] all[k]).other_thread.0 < m.threads.len()
                        && all[k].their_lines.end > 0,
                k <= found.len(),
                out.deep_view() == lists::kept(all.take(k as int), p),
                forall|j: int|
                    0 <= j < out.len() ==> (#[trigger] out.deep_view()[j]).other_thread.0
                        < m.threads.len() && out.deep_view()[j].their_lines.end > 0,
            decreases found.len() - k,
        {
            assert(all.take(k + 1).drop_last() =~= all.take(k as int));
            assert(all[k as int] == found@[k as int].deep_view());
            let other = found[k].other_thread.0 as usize;
            assert(m.threads[other as int] == self.threads@[other as int].deep_view());
            let root = seed::transcript_root(self.threads[other].seed.title);
            if !text::same_text(root, mine) {
                let ghost before = out.deep_view();
                let conflict = found[k].clone();
                out.push(conflict);
                assert(out.deep_view() =~= before.push(all[k as int]));
            }
            k += 1;
        }
        assert(all.take(all.len() as int) =~= all);
        out
    }

    /// Both halves of the overlap query, surfaced where the decision is made:
    /// who already knows this range, and who else is editing it right now.
    pub fn routing_hints(&self) -> (r: Option<RoutingHints>)
        requires
            self.deep_view().well_formed(),
        ensures
            r.deep_view() == self.deep_view().hints(),
            r matches Some(hints) ==> (hints.expert matches Some((who, _)) ==> who
                < seed::everyone().len()),
    {
        let ghost m = self.deep_view();
        let (file, lines) = match self.target_file_lines() {
            Some(found) => found,
            None => {
                return None;
            },
        };
        let index = self.overlap();
        proof {
            assert forall|author: ActorId|
                #![trigger overlap::lines_by(blame(), file@, lines, author)]
                #![trigger overlap::commits_by(blame(), file@, lines, author)]
                overlap::lines_by(blame(), file@, lines, author) <= u32::MAX
                    && overlap::commits_by(blame(), file@, lines, author) <= u32::MAX by {
                lemma_blame(file@, lines, author);
            }
            overlap::expert_queries_are_complete_and_ranked(blame(), file@, lines);
        }
        let experts = index.experts(file.as_str(), &lines);
        let conflicts = self.worthwhile_conflicts(&index, file.as_str(), &lines);
        let ghost ranked = experts.deep_view();
        let ghost cs = conflicts.deep_view();
        if experts.len() == 0 && conflicts.len() == 0 {
            return None;
        }
        let expert = if experts.len() > 0 {
            assert(ranked[0] == experts@[0].deep_view());
            assert(ranked.contains(ranked[0]));
            proof {
                lemma_blame(file@, lines, ranked[0].author);
            }
            Some((experts[0].author.0 as usize, experts[0].reason.clone()))
        } else {
            None
        };
        let n = if conflicts.len() < SHOWN {
            conflicts.len()
        } else {
            SHOWN
        };
        let mut notices: Vec<String> = Vec::new();
        let mut k: usize = 0;
        assert(notices.deep_view() =~= m.notices(cs, 0));
        while k < n
            invariant
                m == self.deep_view(),
                cs == conflicts.deep_view(),
                forall|k: int|
                    0 <= k < cs.len() ==> (#[trigger] cs[k]).other_thread.0 < m.threads.len()
                        && cs[k].their_lines.end > 0,
                k <= n <= conflicts.len(),
                notices.deep_view() == m.notices(cs, k as int),
            decreases n - k,
        {
            assert(cs[k as int] == conflicts@[k as int].deep_view());
            let other = conflicts[k].other_thread.0 as usize;
            assert(m.threads[other as int] == self.threads@[other as int].deep_view());
            let ghost before = notices.deep_view();
            let line = write_notice(self.threads[other].seed.title, &conflicts[k]);
            notices.push(line);
            assert(notices.deep_view() =~= before.push(line@));
            k += 1;
        }
        Some(RoutingHints { expert, notices })
    }
}

// ------------------------------------------------------------------- laws --

/// The index holds one touch for each thread with changes, in order: the thread, its
/// file, the lines from its first changed one to its last, and its turn.
pub proof fn every_dirty_thread_is_a_live_touch(threads: Seq<ThreadUiModel>)
    requires
        forall|i: int| 0 <= i < threads.len() ==> (#[trigger] threads[i]).seed.numbered(),
    ensures
        lists::picks(
            live_touches(threads, threads.len() as int),
            threads.len() as int,
            |i: int| threads[i].seed.diff_lines.len() > 0,
            |i: int|
                LiveTouchModel {
                    thread: ThreadId(i as u32),
                    file: threads[i].seed.diff_dir + threads[i].seed.diff_file,
                    lines: Range {
                        start: threads[i].seed.diff_lines[0].0,
                        end: (threads[i].seed.diff_lines[threads[i].seed.diff_lines.len() - 1].0
                            + 1) as u32,
                    },
                    turn: threads[i].turn,
                },
        ),
{
    let n = threads.len() as int;
    let out = |k: int| live_touches(threads, k);
    let pick = |i: int| threads[i].seed.diff_lines.len() > 0;
    let make = |i: int|
        LiveTouchModel {
            thread: ThreadId(i as u32),
            file: threads[i].seed.diff_dir + threads[i].seed.diff_file,
            lines: Range {
                start: threads[i].seed.diff_lines[0].0,
                end: (threads[i].seed.diff_lines[threads[i].seed.diff_lines.len() - 1].0 + 1)
                    as u32,
            },
            turn: threads[i].turn,
        };
    assert forall|k: int| 0 <= k < n implies #[trigger] lists::picks_next(out, k, pick, make) by {}
    lists::lemma_picks(out, n, pick, make);
}

/// What is being commented on, in the file's own numbers: from the first line of the run
/// to its last. Outside the diff there are none.
pub proof fn a_target_has_the_numbers_of_its_lines(m: ShellModel, a: usize, b: usize)
    requires
        m.current().seed.numbered(),
    ensures
        ({
            let lines = m.current().seed.diff_lines;
            &&& m.target == Some(Target::Diff(a, b)) && a < lines.len() && b < lines.len() ==> {
                m.target_lines() matches Some((file, numbers)) && file
                    == m.current().seed.diff_dir + m.current().seed.diff_file && numbers.start
                    == lines[a as int].0 && numbers.end == lines[b as int].0 + 1
            }
            &&& m.target == Some(Target::Diff(a, b)) && (a >= lines.len() || b >= lines.len())
                ==> m.target_lines() is None
            &&& !(m.target matches Some(Target::Diff(_, _))) ==> m.target_lines() is None
        }),
{
    let lines = m.current().seed.diff_lines;
    if b < lines.len() {
        assert(lines[b as int].0 < u32::MAX);
    }
}

/// A notice says whether the other thread is in the same lines or near them, which
/// thread it is, in which lines, the last one included, and on which turn.
pub proof fn a_notice_says_who_where_and_when(title: Seq<char>, c: ConflictModel)
    requires
        c.their_lines.end > 0,
    ensures
        ({
            let rest = title + " (lines "@ + text::decimal(c.their_lines.start as nat) + seq!['-']
                + text::decimal((c.their_lines.end - 1) as nat) + ", turn "@ + text::decimal(
                c.their_turn as nat,
            ) + seq![')'];
            &&& c.kind == ConflictKind::Overlapping ==> notice(title, c) == "also editing: "@
                + rest
            &&& c.kind == ConflictKind::Adjacent ==> notice(title, c) == "editing nearby: "@ + rest
        }),
{
    reveal_strlit("also editing");
    reveal_strlit("also editing: ");
    reveal_strlit("editing nearby");
    reveal_strlit("editing nearby: ");
    reveal_strlit(": ");
    reveal_strlit("-");
    reveal_strlit(")");
    let rest = title + " (lines "@ + text::decimal(c.their_lines.start as nat) + seq!['-']
        + text::decimal((c.their_lines.end - 1) as nat) + ", turn "@ + text::decimal(
        c.their_turn as nat,
    ) + seq![')'];
    if c.kind == ConflictKind::Overlapping {
        assert(notice(title, c) =~= "also editing: "@ + rest);
    } else {
        assert(notice(title, c) =~= "editing nearby: "@ + rest);
    }
}

/// A conflict with a thread that shares this one's transcript is not worth saying; every
/// other that the index tells of, within six lines, is, and in its order.
pub proof fn conflicts_with_the_same_work_are_left_out(
    m: ShellModel,
    file: Seq<char>,
    lines: Range<u32>,
    c: ConflictModel,
)
    ensures
        ({
            let found = order::sorted_by(
                overlap::conflicts_among(
                    live_touches(m.threads, m.threads.len() as int),
                    ThreadId(m.active as u32),
                    file,
                    lines,
                    6,
                ),
                |c: ConflictModel| overlap::conflict_rank(c),
            );
            &&& m.conflicts(file, lines).contains(c) <==> found.contains(c) && seed::root(
                m.threads[c.other_thread.0 as int].seed.title,
            ) != seed::root(m.current().seed.title)
            &&& lists::picks(
                m.conflicts(file, lines),
                found.len() as int,
                |k: int|
                    seed::root(m.threads[found[k].other_thread.0 as int].seed.title) != seed::root(
                        m.current().seed.title,
                    ),
                |k: int| found[k],
            )
        }),
{
    let found = order::sorted_by(
        overlap::conflicts_among(
            live_touches(m.threads, m.threads.len() as int),
            ThreadId(m.active as u32),
            file,
            lines,
            6,
        ),
        |c: ConflictModel| overlap::conflict_rank(c),
    );
    let p = |c: ConflictModel| m.unrelated(c);
    lists::lemma_kept(found, p);
    let n = found.len() as int;
    let out = |k: int| lists::kept(found.take(k), p);
    let pick = |k: int|
        seed::root(m.threads[found[k].other_thread.0 as int].seed.title) != seed::root(
            m.current().seed.title,
        );
    let make = |k: int| found[k];
    assert(found.take(0) =~= Seq::<ConflictModel>::empty());
    assert(out(0) =~= Seq::<ConflictModel>::empty());
    assert forall|k: int| 0 <= k < n implies #[trigger] lists::picks_next(out, k, pick, make) by {
        assert(found.take(k + 1).drop_last() =~= found.take(k));
        assert(found.take(k + 1).last() == found[k]);
    }
    lists::lemma_picks(out, n, pick, make);
    assert(found.take(n) =~= found);
}

proof fn lemma_notices(m: ShellModel, conflicts: Seq<ConflictModel>, n: int)
    requires
        0 <= n,
    ensures
        m.notices(conflicts, n).len() == n,
        forall|k: int|
            0 <= k < n ==> #[trigger] m.notices(conflicts, n)[k] == notice(
                m.threads[conflicts[k].other_thread.0 as int].seed.title,
                conflicts[k],
            ),
    decreases n,
{
    if n > 0 {
        lemma_notices(m, conflicts, n - 1);
        let before = m.notices(conflicts, n - 1);
        let all = m.notices(conflicts, n);
        assert forall|k: int| 0 <= k < n implies #[trigger] all[k] == notice(
            m.threads[conflicts[k].other_thread.0 as int].seed.title,
            conflicts[k],
        ) by {
            if k < n - 1 {
                assert(all[k] == before[k]);
            }
        }
    }
}

/// A hint names the foremost expert, if there is one, and says of the first two
/// conflicts, as far as there are so many, who else is there. With neither there is none.
pub proof fn hints_come_from_both_questions(m: ShellModel)
    ensures
        m.target_lines() is None ==> m.hints() is None,
        m.target_lines() matches Some((file, lines)) ==> {
            let experts = overlap::ranked_experts(blame(), file, lines);
            let conflicts = m.conflicts(file, lines);
            &&& m.hints() is None <==> experts.len() == 0 && conflicts.len() == 0
            &&& m.hints() matches Some(hints) ==> {
                &&& hints.expert is Some <==> experts.len() > 0
                &&& experts.len() > 0 ==> hints.expert == Some(
                    (experts[0].author.0 as usize, experts[0].reason),
                )
                &&& conflicts.len() >= 2 ==> hints.notices.len() == 2
                &&& conflicts.len() < 2 ==> hints.notices.len() == conflicts.len()
                &&& forall|k: int|
                    0 <= k < hints.notices.len() ==> #[trigger] hints.notices[k] == notice(
                        m.threads[conflicts[k].other_thread.0 as int].seed.title,
                        conflicts[k],
                    )
            }
        },
{
    if m.target_lines() is Some {
        let (file, lines) = m.target_lines()->0;
        let conflicts = m.conflicts(file, lines);
        lemma_notices(
            m,
            conflicts,
            if conflicts.len() < 2 {
                conflicts.len() as int
            } else {
                2
            },
        );
    }
}

} // verus!
