//! The overlap index.
//!
//! Two paths reduce to the same question -- *who else has touched this range?*
//! The two answers differ only in tense:
//!
//!   * a thread editing it **right now**  -> merge-conflict warning
//!   * a person who edited it **in the past** -> expertise suggestion
//!
//! Keeping them in one index is the point. It means conflict detection and
//! expert routing cannot drift apart, and a single anchor query serves both.

use std::ops::Range;

use vstd::prelude::*;

use crate::model::actor::ActorId;
use crate::model::thread::ThreadId;
use crate::order;
use crate::text;

verus! {

/// A range some thread's worktree is currently dirty in.
#[derive(Debug)]
pub struct LiveTouch {
    pub thread: ThreadId,
    pub file: String,
    pub lines: Range<u32>,
    /// Turn on which this thread last wrote here.
    pub turn: u32,
}

#[verifier::ext_equal]
pub ghost struct LiveTouchModel {
    pub thread: ThreadId,
    pub file: Seq<char>,
    pub lines: Range<u32>,
    pub turn: u32,
}

impl DeepView for LiveTouch {
    type V = LiveTouchModel;

    open spec fn deep_view(&self) -> LiveTouchModel {
        LiveTouchModel {
            thread: self.thread,
            file: self.file@,
            lines: self.lines,
            turn: self.turn,
        }
    }
}

impl Clone for LiveTouch {
    fn clone(&self) -> (r: Self)
        ensures
            r.deep_view() == self.deep_view(),
    {
        LiveTouch {
            thread: self.thread,
            file: self.file.clone(),
            lines: self.lines.start..self.lines.end,
            turn: self.turn,
        }
    }
}

/// A range someone authored historically, as `git blame` would report it.
#[derive(Debug)]
pub struct HistoricalTouch {
    pub author: ActorId,
    pub file: String,
    pub lines: Range<u32>,
    pub commits: u32,
}

#[verifier::ext_equal]
pub ghost struct HistoricalTouchModel {
    pub author: ActorId,
    pub file: Seq<char>,
    pub lines: Range<u32>,
    pub commits: u32,
}

impl DeepView for HistoricalTouch {
    type V = HistoricalTouchModel;

    open spec fn deep_view(&self) -> HistoricalTouchModel {
        HistoricalTouchModel {
            author: self.author,
            file: self.file@,
            lines: self.lines,
            commits: self.commits,
        }
    }
}

impl Clone for HistoricalTouch {
    fn clone(&self) -> (r: Self)
        ensures
            r.deep_view() == self.deep_view(),
    {
        HistoricalTouch {
            author: self.author,
            file: self.file.clone(),
            lines: self.lines.start..self.lines.end,
            commits: self.commits,
        }
    }
}

#[derive(Clone, Copy, Debug, PartialEq, Eq, Structural)]
pub enum ConflictKind {
    /// Ranges intersect. A real merge conflict is likely.
    Overlapping,
    /// Ranges are within the proximity window but do not intersect. Git would
    /// merge these cleanly; a human might still want to know.
    Adjacent,
}

#[derive(Debug)]
pub struct Conflict {
    pub other_thread: ThreadId,
    pub file: String,
    pub our_lines: Range<u32>,
    pub their_lines: Range<u32>,
    pub kind: ConflictKind,
    pub their_turn: u32,
}

#[verifier::ext_equal]
pub ghost struct ConflictModel {
    pub other_thread: ThreadId,
    pub file: Seq<char>,
    pub our_lines: Range<u32>,
    pub their_lines: Range<u32>,
    pub kind: ConflictKind,
    pub their_turn: u32,
}

impl DeepView for Conflict {
    type V = ConflictModel;

    open spec fn deep_view(&self) -> ConflictModel {
        ConflictModel {
            other_thread: self.other_thread,
            file: self.file@,
            our_lines: self.our_lines,
            their_lines: self.their_lines,
            kind: self.kind,
            their_turn: self.their_turn,
        }
    }
}

impl Clone for Conflict {
    fn clone(&self) -> (r: Self)
        ensures
            r.deep_view() == self.deep_view(),
    {
        Conflict {
            other_thread: self.other_thread,
            file: self.file.clone(),
            our_lines: self.our_lines.start..self.our_lines.end,
            their_lines: self.their_lines.start..self.their_lines.end,
            kind: self.kind,
            their_turn: self.their_turn,
        }
    }
}

#[derive(Debug)]
pub struct Expert {
    pub author: ActorId,
    pub lines_authored: u32,
    pub commits: u32,
    /// Why this person surfaced, in words. Ranking that cannot explain itself
    /// reads as wrong even when it is right, so the reason is part of the
    /// result rather than something the UI reconstructs.
    pub reason: String,
}

#[verifier::ext_equal]
pub ghost struct ExpertModel {
    pub author: ActorId,
    pub lines_authored: int,
    pub commits: int,
    pub reason: Seq<char>,
}

impl DeepView for Expert {
    type V = ExpertModel;

    open spec fn deep_view(&self) -> ExpertModel {
        ExpertModel {
            author: self.author,
            lines_authored: self.lines_authored as int,
            commits: self.commits as int,
            reason: self.reason@,
        }
    }
}

impl Clone for Expert {
    fn clone(&self) -> (r: Self)
        ensures
            r.deep_view() == self.deep_view(),
    {
        Expert {
            author: self.author,
            lines_authored: self.lines_authored,
            commits: self.commits,
            reason: self.reason.clone(),
        }
    }
}

pub struct OverlapIndex {
    pub live: Vec<LiveTouch>,
    pub history: Vec<HistoricalTouch>,
    /// How many lines apart two edits can be and still be worth mentioning.
    /// Line-exact overlap alone is too strict -- two threads rewriting adjacent
    /// arms of the same `match` will merge cleanly and still be a problem.
    pub proximity: u32,
}

// ----------------------------------------------------------------- ranges --

/// Whether two ranges share a line.
pub open spec fn meet(a: Range<u32>, b: Range<u32>) -> bool {
    a.start < b.end && b.start < a.end
}

pub fn intersects(a: &Range<u32>, b: &Range<u32>) -> (r: bool)
    ensures
        r == meet(*a, *b),
{
    a.start < b.end && b.start < a.end
}

/// How many lines lie between two ranges.
pub open spec fn distance(a: Range<u32>, b: Range<u32>) -> int {
    if meet(a, b) {
        0
    } else if a.end <= b.start {
        b.start - a.end
    } else {
        a.start - b.end
    }
}

pub fn gap(a: &Range<u32>, b: &Range<u32>) -> (r: u32)
    ensures
        r == distance(*a, *b),
{
    if intersects(a, b) {
        0
    } else if a.end <= b.start {
        b.start - a.end
    } else {
        a.start - b.end
    }
}

/// How many lines two ranges share.
pub open spec fn shared(a: Range<u32>, b: Range<u32>) -> int {
    let start = if a.start >= b.start {
        a.start
    } else {
        b.start
    };
    let end = if a.end <= b.end {
        a.end
    } else {
        b.end
    };
    if end >= start {
        end - start
    } else {
        0
    }
}

pub fn overlap_len(a: &Range<u32>, b: &Range<u32>) -> (r: u32)
    ensures
        r == shared(*a, *b),
{
    let start = if a.start >= b.start {
        a.start
    } else {
        b.start
    };
    let end = if a.end <= b.end {
        a.end
    } else {
        b.end
    };
    if end >= start {
        end - start
    } else {
        0
    }
}

/// Colliding is mutual: what one range says of another, the other says of it.
pub proof fn collisions_are_mutual(a: Range<u32>, b: Range<u32>)
    requires
        a.start <= a.end,
        b.start <= b.end,
    ensures
        meet(a, b) == meet(b, a),
        distance(a, b) == distance(b, a),
        shared(a, b) == shared(b, a),
        a.start < a.end && b.start < b.end ==> (meet(a, b) <==> shared(a, b) > 0),
{
}

// -------------------------------------------------------------- conflicts --

/// What `touch` means to a thread asking about `lines` of `file`, if anything.
pub open spec fn conflict_with(
    touch: LiveTouchModel,
    asking: ThreadId,
    file: Seq<char>,
    lines: Range<u32>,
    proximity: u32,
) -> Option<ConflictModel> {
    if touch.thread == asking || touch.file != file || distance(lines, touch.lines) > proximity {
        None
    } else {
        Some(
            ConflictModel {
                other_thread: touch.thread,
                file,
                our_lines: lines,
                their_lines: touch.lines,
                kind: if meet(lines, touch.lines) {
                    ConflictKind::Overlapping
                } else {
                    ConflictKind::Adjacent
                },
                their_turn: touch.turn,
            },
        )
    }
}

/// What all of `live` means to that thread, in the order of `live`.
pub open spec fn conflicts_among(
    live: Seq<LiveTouchModel>,
    asking: ThreadId,
    file: Seq<char>,
    lines: Range<u32>,
    proximity: u32,
) -> Seq<ConflictModel>
    decreases live.len(),
{
    if live.len() == 0 {
        Seq::empty()
    } else {
        let rest = conflicts_among(live.drop_last(), asking, file, lines, proximity);
        match conflict_with(live.last(), asking, file, lines, proximity) {
            Some(c) => rest.push(c),
            None => rest,
        }
    }
}

/// Overlapping before adjacent; most recent activity first.
pub open spec fn conflict_rank(c: ConflictModel) -> int {
    (if c.kind == ConflictKind::Overlapping {
        0int
    } else {
        0x1_0000_0000
    }) - c.their_turn
}

fn rank(c: &Conflict) -> (r: i64)
    ensures
        r == conflict_rank(c.deep_view()),
{
    let base: i64 = match c.kind {
        ConflictKind::Overlapping => 0,
        ConflictKind::Adjacent => 0x1_0000_0000,
    };
    base - c.their_turn as i64
}

/// Puts `c` into the ranking behind everything that ranks no worse.
fn insert_conflict(out: &mut Vec<Conflict>, c: Conflict)
    ensures
        final(out).deep_view() == order::inserted(
            old(out).deep_view(),
            c.deep_view(),
            |x: ConflictModel| conflict_rank(x),
        ),
{
    let ghost key = |x: ConflictModel| conflict_rank(x);
    let ghost before = out.deep_view();
    let r = rank(&c);
    let mut at: usize = out.len();
    while at > 0 && rank(&out[at - 1]) > r
        invariant
            at <= out.len(),
            out.deep_view() == before,
            r == conflict_rank(c.deep_view()),
            forall|i: int|
                at <= i < out.len() ==> conflict_rank(#[trigger] before[i]) > conflict_rank(
                    c.deep_view(),
                ),
        decreases at,
    {
        assert(before[at - 1] == out@[at - 1].deep_view());
        at -= 1;
    }
    proof {
        if at > 0 {
            assert(before[at - 1] == out@[at - 1].deep_view());
        }
        order::lemma_inserted_at(before, c.deep_view(), key, at as int);
    }
    out.insert(at, c);
    assert(out.deep_view() =~= before.insert(at as int, c.deep_view()));
}

// ---------------------------------------------------------------- experts --

/// Whether `touch` says anything about `lines` of `file`.
pub open spec fn bears_on(
    touch: HistoricalTouchModel,
    file: Seq<char>,
    lines: Range<u32>,
) -> bool {
    touch.file == file && shared(lines, touch.lines) > 0
}

/// Who authored any of `lines` of `file`, in the order they first appear.
pub open spec fn authors(
    history: Seq<HistoricalTouchModel>,
    file: Seq<char>,
    lines: Range<u32>,
) -> Seq<ActorId>
    decreases history.len(),
{
    if history.len() == 0 {
        Seq::empty()
    } else {
        let rest = authors(history.drop_last(), file, lines);
        let touch = history.last();
        if bears_on(touch, file, lines) && !rest.contains(touch.author) {
            rest.push(touch.author)
        } else {
            rest
        }
    }
}

/// How many of `lines` of `file` the touches of `author` cover, each touch
/// counted for itself.
pub open spec fn lines_by(
    history: Seq<HistoricalTouchModel>,
    file: Seq<char>,
    lines: Range<u32>,
    author: ActorId,
) -> int
    decreases history.len(),
{
    if history.len() == 0 {
        0
    } else {
        let touch = history.last();
        lines_by(history.drop_last(), file, lines, author) + if bears_on(touch, file, lines)
            && touch.author == author {
            shared(lines, touch.lines)
        } else {
            0
        }
    }
}

/// How many commits those touches of `author` took.
pub open spec fn commits_by(
    history: Seq<HistoricalTouchModel>,
    file: Seq<char>,
    lines: Range<u32>,
    author: ActorId,
) -> int
    decreases history.len(),
{
    if history.len() == 0 {
        0
    } else {
        let touch = history.last();
        commits_by(history.drop_last(), file, lines, author) + if bears_on(touch, file, lines)
            && touch.author == author {
            touch.commits as int
        } else {
            0
        }
    }
}

/// How many lines a range is spoken of as having: never none.
pub open spec fn spoken_span(lines: Range<u32>) -> int {
    if lines.end > lines.start {
        lines.end - lines.start
    } else {
        1
    }
}

/// Why an author surfaced, in words.
pub open spec fn reason_for(lines_authored: int, span: int, commits: int) -> Seq<char> {
    "wrote "@ + text::decimal(lines_authored as nat) + " of these "@ + text::decimal(span as nat)
        + " lines, across "@ + text::decimal(commits as nat) + " commit"@ + if commits == 1 {
        ""@
    } else {
        "s"@
    }
}

/// What `history` says of `author` and `lines` of `file`.
pub open spec fn expert(
    history: Seq<HistoricalTouchModel>,
    file: Seq<char>,
    lines: Range<u32>,
    author: ActorId,
) -> ExpertModel {
    let authored = lines_by(history, file, lines, author);
    let commits = commits_by(history, file, lines, author);
    ExpertModel {
        author,
        lines_authored: authored,
        commits,
        reason: reason_for(authored, spoken_span(lines), commits),
    }
}

/// Everyone who authored any of `lines` of `file`, most lines first.
pub open spec fn ranked_experts(
    history: Seq<HistoricalTouchModel>,
    file: Seq<char>,
    lines: Range<u32>,
) -> Seq<ExpertModel> {
    let who = authors(history, file, lines);
    order::sorted_by(
        Seq::new(who.len(), |i: int| expert(history, file, lines, who[i])),
        |e: ExpertModel| -e.lines_authored,
    )
}

/// Whether the lines and the commits of every author can be added up.
pub open spec fn countable(
    history: Seq<HistoricalTouchModel>,
    file: Seq<char>,
    lines: Range<u32>,
) -> bool {
    forall|author: ActorId|
        #![trigger lines_by(history, file, lines, author)]
        #![trigger commits_by(history, file, lines, author)]
        lines_by(history, file, lines, author) <= u32::MAX && commits_by(
            history,
            file,
            lines,
            author,
        ) <= u32::MAX
}

proof fn lemma_sums_grow(
    history: Seq<HistoricalTouchModel>,
    file: Seq<char>,
    lines: Range<u32>,
    author: ActorId,
    n: int,
)
    requires
        0 <= n <= history.len(),
    ensures
        0 <= lines_by(history.take(n), file, lines, author) <= lines_by(
            history,
            file,
            lines,
            author,
        ),
        0 <= commits_by(history.take(n), file, lines, author) <= commits_by(
            history,
            file,
            lines,
            author,
        ),
    decreases history.len(),
{
    if n < history.len() {
        lemma_sums_grow(history.drop_last(), file, lines, author, n);
        assert(history.drop_last().take(n) =~= history.take(n));
    } else {
        assert(history.take(n) =~= history);
        if n > 0 {
            lemma_sums_grow(history.drop_last(), file, lines, author, n - 1);
            assert(history.drop_last().take(n - 1) =~= history.drop_last());
        }
    }
}

proof fn lemma_authors_bear(
    history: Seq<HistoricalTouchModel>,
    file: Seq<char>,
    lines: Range<u32>,
)
    ensures
        authors(history, file, lines).no_duplicates(),
        forall|author: ActorId|
            #[trigger] authors(history, file, lines).contains(author) <==> lines_by(
                history,
                file,
                lines,
                author,
            ) > 0,
        forall|author: ActorId| lines_by(history, file, lines, author) >= 0,
    decreases history.len(),
{
    if history.len() > 0 {
        let front = history.drop_last();
        lemma_authors_bear(front, file, lines);
        let touch = history.last();
        let rest = authors(front, file, lines);
        assert forall|author: ActorId| lines_by(history, file, lines, author) >= 0 by {
            assert(lines_by(front, file, lines, author) >= 0);
        }
        assert forall|author: ActorId|
            #[trigger] authors(history, file, lines).contains(author) <==> lines_by(
                history,
                file,
                lines,
                author,
            ) > 0 by {
            assert(rest.contains(author) <==> lines_by(front, file, lines, author) > 0);
            assert(lines_by(front, file, lines, author) >= 0);
            let now = authors(history, file, lines);
            if bears_on(touch, file, lines) && !rest.contains(touch.author) {
                assert(now == rest.push(touch.author));
                assert(now[rest.len() as int] == touch.author);
                if rest.contains(author) {
                    let i = choose|i: int| 0 <= i < rest.len() && rest[i] == author;
                    assert(now[i] == author);
                }
            }
        }
    }
}

fn describe(lines_authored: u32, span: u32, commits: u32) -> (r: String)
    ensures
        r@ == reason_for(lines_authored as int, span as int, commits as int),
{
    let mut out = "wrote ".to_owned();
    out.append(text::write_decimal(lines_authored as u128).as_str());
    out.append(" of these ");
    out.append(text::write_decimal(span as u128).as_str());
    out.append(" lines, across ");
    out.append(text::write_decimal(commits as u128).as_str());
    out.append(" commit");
    out.append(
        if commits == 1 {
            ""
        } else {
            "s"
        },
    );
    out
}

/// Puts `e` into the ranking behind everyone with at least as many lines.
fn insert_expert(out: &mut Vec<Expert>, e: Expert)
    ensures
        final(out).deep_view() == order::inserted(
            old(out).deep_view(),
            e.deep_view(),
            |x: ExpertModel| -x.lines_authored,
        ),
{
    let ghost key = |x: ExpertModel| -x.lines_authored;
    let ghost before = out.deep_view();
    let mut at: usize = out.len();
    while at > 0 && out[at - 1].lines_authored < e.lines_authored
        invariant
            at <= out.len(),
            out.deep_view() == before,
            forall|i: int|
                at <= i < out.len() ==> (#[trigger] before[i]).lines_authored
                    < e.deep_view().lines_authored,
        decreases at,
    {
        assert(before[at - 1] == out@[at - 1].deep_view());
        at -= 1;
    }
    proof {
        if at > 0 {
            assert(before[at - 1] == out@[at - 1].deep_view());
        }
        order::lemma_inserted_at(before, e.deep_view(), key, at as int);
    }
    out.insert(at, e);
    assert(out.deep_view() =~= before.insert(at as int, e.deep_view()));
}

impl OverlapIndex {
    pub fn new(proximity: u32) -> (r: Self)
        ensures
            r.live.deep_view() == Seq::<LiveTouchModel>::empty(),
            r.history.deep_view() == Seq::<HistoricalTouchModel>::empty(),
            r.proximity == proximity,
    {
        let r = Self { live: Vec::new(), history: Vec::new(), proximity };
        assert(r.live.deep_view() =~= Seq::<LiveTouchModel>::empty());
        assert(r.history.deep_view() =~= Seq::<HistoricalTouchModel>::empty());
        r
    }

    /// Path 1: which other live threads collide with `lines` in `file`.
    pub fn conflicts(&self, asking: ThreadId, file: &str, lines: &Range<u32>) -> (r: Vec<Conflict>)
        ensures
            r.deep_view() == order::sorted_by(
                conflicts_among(self.live.deep_view(), asking, file@, *lines, self.proximity),
                |c: ConflictModel| conflict_rank(c),
            ),
            lines.start <= lines.end && (forall|k: int|
                0 <= k < self.live.len() ==> (#[trigger] self.live.deep_view()[k]).lines.start
                    <= self.live.deep_view()[k].lines.end) ==> exists|from: Seq<int>|
                #[trigger] answers_with(
                    r.deep_view(),
                    from,
                    self.live.deep_view(),
                    asking,
                    file@,
                    *lines,
                    self.proximity,
                ),
    {
        let ghost live = self.live.deep_view();
        let ghost key = |c: ConflictModel| conflict_rank(c);
        let mut out: Vec<Conflict> = Vec::new();
        let mut i: usize = 0;
        assert(out.deep_view() =~= order::sorted_by(Seq::<ConflictModel>::empty(), key));
        assert(live.take(0) =~= Seq::<LiveTouchModel>::empty());
        while i < self.live.len()
            invariant
                live == self.live.deep_view(),
                key == (|c: ConflictModel| conflict_rank(c)),
                i <= self.live.len(),
                out.deep_view() == order::sorted_by(
                    conflicts_among(live.take(i as int), asking, file@, *lines, self.proximity),
                    key,
                ),
            decreases self.live.len() - i,
        {
            let t = &self.live[i];
            let ghost so_far = conflicts_among(
                live.take(i as int),
                asking,
                file@,
                *lines,
                self.proximity,
            );
            assert(live.take(i + 1).drop_last() =~= live.take(i as int));
            assert(live.take(i + 1).last() == t.deep_view());
            if t.thread != asking && text::same_text(t.file.as_str(), file) && gap(lines, &t.lines)
                <= self.proximity {
                let kind = if intersects(lines, &t.lines) {
                    ConflictKind::Overlapping
                } else {
                    ConflictKind::Adjacent
                };
                let c = Conflict {
                    other_thread: t.thread,
                    file: file.to_owned(),
                    our_lines: lines.start..lines.end,
                    their_lines: t.lines.start..t.lines.end,
                    kind,
                    their_turn: t.turn,
                };
                assert(so_far.push(c.deep_view()).drop_last() =~= so_far);
                insert_conflict(&mut out, c);
            }
            i += 1;
        }
        assert(live.take(live.len() as int) =~= live);
        proof {
            if lines.start <= lines.end && (forall|k: int|
                0 <= k < live.len() ==> (#[trigger] live[k]).lines.start <= live[k].lines.end) {
                a_conflict_query_tells_of_every_collision(
                    live,
                    asking,
                    file@,
                    *lines,
                    self.proximity,
                );
            }
        }
        out
    }

    /// Path 2: who knows about `lines` in `file`.
    pub fn experts(&self, file: &str, lines: &Range<u32>) -> (r: Vec<Expert>)
        requires
            lines.start <= lines.end,
            countable(self.history.deep_view(), file@, *lines),
        ensures
            r.deep_view() == ranked_experts(self.history.deep_view(), file@, *lines),
            exists|from: Seq<int>|
                #[trigger] names_experts(
                    r.deep_view(),
                    from,
                    self.history.deep_view(),
                    file@,
                    *lines,
                ),
    {
        let mut tally = self.tally(file, lines);
        let ghost history = self.history.deep_view();
        let ghost who = authors(history, file@, *lines);
        let ghost all = Seq::new(who.len(), |i: int| expert(history, file@, *lines, who[i]));
        let ghost key = |e: ExpertModel| -e.lines_authored;
        let span = if lines.end > lines.start {
            lines.end - lines.start
        } else {
            1
        };
        let mut out: Vec<Expert> = Vec::new();
        let mut i: usize = 0;
        assert(out.deep_view() =~= order::sorted_by(Seq::<ExpertModel>::empty(), key));
        assert(all.take(0) =~= Seq::<ExpertModel>::empty());
        while i < tally.len()
            invariant
                history == self.history.deep_view(),
                who == authors(history, file@, *lines),
                all == Seq::new(who.len(), |i: int| expert(history, file@, *lines, who[i])),
                key == (|e: ExpertModel| -e.lines_authored),
                span == spoken_span(*lines),
                tally.len() == who.len(),
                i <= tally.len(),
                forall|k: int|
                    0 <= k < tally.len() ==> (#[trigger] tally@[k]).0 == who[k] && tally@[k].1
                        == lines_by(history, file@, *lines, who[k]) && tally@[k].2 == commits_by(
                        history,
                        file@,
                        *lines,
                        who[k],
                    ),
                out.deep_view() == order::sorted_by(all.take(i as int), key),
            decreases tally.len() - i,
        {
            let (author, lines_authored, commits) = tally[i];
            let e = Expert {
                author,
                lines_authored,
                commits,
                reason: describe(lines_authored, span, commits),
            };
            assert(e.deep_view() == all[i as int]);
            assert(all.take(i + 1).drop_last() =~= all.take(i as int));
            insert_expert(&mut out, e);
            i += 1;
        }
        assert(all.take(all.len() as int) =~= all);
        proof {
            an_expertise_query_counts_what_was_written(history, file@, *lines);
        }
        out
    }

    /// Lines and commits of every author of `lines` in `file`, in the order the
    /// authors first appear.
    fn tally(&self, file: &str, lines: &Range<u32>) -> (r: Vec<(ActorId, u32, u32)>)
        requires
            countable(self.history.deep_view(), file@, *lines),
        ensures
            r.len() == authors(self.history.deep_view(), file@, *lines).len(),
            forall|k: int|
                0 <= k < r.len() ==> (#[trigger] r@[k]).0 == authors(
                    self.history.deep_view(),
                    file@,
                    *lines,
                )[k] && r@[k].1 == lines_by(self.history.deep_view(), file@, *lines, r@[k].0)
                    && r@[k].2 == commits_by(self.history.deep_view(), file@, *lines, r@[k].0),
    {
        let ghost history = self.history.deep_view();
        let mut tally: Vec<(ActorId, u32, u32)> = Vec::new();
        let mut i: usize = 0;
        assert(history.take(0) =~= Seq::<HistoricalTouchModel>::empty());
        while i < self.history.len()
            invariant
                history == self.history.deep_view(),
                countable(history, file@, *lines),
                i <= self.history.len(),
                tally.len() == authors(history.take(i as int), file@, *lines).len(),
                forall|k: int|
                    0 <= k < tally.len() ==> (#[trigger] tally@[k]).0 == authors(
                        history.take(i as int),
                        file@,
                        *lines,
                    )[k] && tally@[k].1 == lines_by(
                        history.take(i as int),
                        file@,
                        *lines,
                        tally@[k].0,
                    ) && tally@[k].2 == commits_by(
                        history.take(i as int),
                        file@,
                        *lines,
                        tally@[k].0,
                    ),
            decreases self.history.len() - i,
        {
            let touch = &self.history[i];
            let ghost done = history.take(i as int);
            let ghost who = authors(done, file@, *lines);
            assert(history.take(i + 1).drop_last() =~= done);
            assert(history.take(i + 1).last() == touch.deep_view());
            proof {
                lemma_authors_bear(done, file@, *lines);
                lemma_sums_grow(history, file@, *lines, touch.author, i + 1);
                lemma_sums_grow(history, file@, *lines, touch.author, i as int);
                assert(lines_by(history, file@, *lines, touch.author) <= u32::MAX);
                assert(commits_by(history, file@, *lines, touch.author) <= u32::MAX);
            }
            if text::same_text(touch.file.as_str(), file) {
                let overlap = overlap_len(lines, &touch.lines);
                if overlap > 0 {
                    let mut k: usize = 0;
                    while k < tally.len() && tally[k].0 != touch.author
                        invariant
                            k <= tally.len(),
                            tally.len() == who.len(),
                            forall|m: int|
                                0 <= m < tally.len() ==> (#[trigger] tally@[m]).0 == who[m],
                            forall|m: int| 0 <= m < k ==> who[m] != touch.author,
                        decreases tally.len() - k,
                    {
                        k += 1;
                    }
                    if k < tally.len() {
                        assert(who[k as int] == touch.author);
                        assert(who.contains(touch.author));
                        let (author, l, c) = tally[k];
                        tally.set(k, (author, l + overlap, c + touch.commits));
                        assert(forall|m: int|
                            0 <= m < tally.len() && m != k ==> who[m] != touch.author);
                    } else {
                        assert(!who.contains(touch.author));
                        assert(lines_by(done, file@, *lines, touch.author) == 0);
                        proof {
                            lemma_no_lines_no_commits(done, file@, *lines, touch.author);
                        }
                        tally.push((touch.author, overlap, touch.commits));
                        assert(forall|m: int| 0 <= m < who.len() ==> who[m] != touch.author);
                    }
                }
            }
            i += 1;
        }
        assert(history.take(history.len() as int) =~= history);
        tally
    }
}

proof fn lemma_no_lines_no_commits(
    history: Seq<HistoricalTouchModel>,
    file: Seq<char>,
    lines: Range<u32>,
    author: ActorId,
)
    ensures
        lines_by(history, file, lines, author) >= 0,
        lines_by(history, file, lines, author) == 0 ==> commits_by(history, file, lines, author)
            == 0,
    decreases history.len(),
{
    if history.len() > 0 {
        lemma_no_lines_no_commits(history.drop_last(), file, lines, author);
    }
}

// ------------------------------------------------------------------- laws --

proof fn lemma_conflicts_among(
    live: Seq<LiveTouchModel>,
    asking: ThreadId,
    file: Seq<char>,
    lines: Range<u32>,
    proximity: u32,
)
    ensures
        forall|c: ConflictModel|
            #[trigger] conflicts_among(live, asking, file, lines, proximity).contains(c)
                <==> exists|i: int|
                0 <= i < live.len() && conflict_with(
                    #[trigger] live[i],
                    asking,
                    file,
                    lines,
                    proximity,
                ) == Some(c),
    decreases live.len(),
{
    if live.len() > 0 {
        let front = live.drop_last();
        lemma_conflicts_among(front, asking, file, lines, proximity);
        let rest = conflicts_among(front, asking, file, lines, proximity);
        let all = conflicts_among(live, asking, file, lines, proximity);
        assert forall|c: ConflictModel| #[trigger] all.contains(c) <==> exists|i: int|
            0 <= i < live.len() && conflict_with(#[trigger] live[i], asking, file, lines, proximity)
                == Some(c) by {
            if all.contains(c) {
                let m = choose|m: int| 0 <= m < all.len() && all[m] == c;
                if m < rest.len() {
                    assert(rest[m] == c);
                    assert(rest.contains(c));
                    let i = choose|i: int|
                        0 <= i < front.len() && conflict_with(
                            #[trigger] front[i],
                            asking,
                            file,
                            lines,
                            proximity,
                        ) == Some(c);
                    assert(live[i] == front[i]);
                } else {
                    assert(live[live.len() - 1] == live.last());
                }
            }
            if exists|i: int|
                0 <= i < live.len() && conflict_with(
                    #[trigger] live[i],
                    asking,
                    file,
                    lines,
                    proximity,
                ) == Some(c) {
                let i = choose|i: int|
                    0 <= i < live.len() && conflict_with(
                        #[trigger] live[i],
                        asking,
                        file,
                        lines,
                        proximity,
                    ) == Some(c);
                if i < front.len() {
                    assert(front[i] == live[i]);
                    assert(rest.contains(c));
                    let m = choose|m: int| 0 <= m < rest.len() && rest[m] == c;
                    assert(all[m] == c);
                } else {
                    assert(all.last() == c);
                    assert(all[all.len() - 1] == c);
                }
            }
        }
    }
}

/// A conflict query reports every other live thread that is in the file within
/// the proximity window, and nothing else: not the asking thread, not another
/// file. Overlapping ranges come before adjacent ones, and within a kind the
/// most recent activity comes first.
pub proof fn conflict_queries_are_complete_and_ranked(
    live: Seq<LiveTouchModel>,
    asking: ThreadId,
    file: Seq<char>,
    lines: Range<u32>,
    proximity: u32,
)
    ensures
        ({
            let found = order::sorted_by(
                conflicts_among(live, asking, file, lines, proximity),
                |c: ConflictModel| conflict_rank(c),
            );
            &&& forall|c: ConflictModel| #[trigger]
                found.contains(c) <==> exists|i: int|
                    0 <= i < live.len() && conflict_with(
                        #[trigger] live[i],
                        asking,
                        file,
                        lines,
                        proximity,
                    ) == Some(c)
            &&& forall|c: ConflictModel| #[trigger]
                found.contains(c) ==> c.other_thread != asking && c.file == file
            &&& forall|i: int, j: int|
                0 <= i < j < found.len() ==> {
                    ||| (#[trigger] found[i]).kind == ConflictKind::Overlapping
                        && (#[trigger] found[j]).kind == ConflictKind::Adjacent
                    ||| found[i].kind == found[j].kind && found[i].their_turn
                        >= found[j].their_turn
                }
        }),
{
    let key = |c: ConflictModel| conflict_rank(c);
    let raw = conflicts_among(live, asking, file, lines, proximity);
    let found = order::sorted_by(raw, key);
    order::sorting_is_stable(raw, key);
    lemma_conflicts_among(live, asking, file, lines, proximity);
    assert forall|c: ConflictModel| #[trigger] found.contains(c) <==> raw.contains(c) by {
        vstd::seq_lib::to_multiset_contains(found, c);
        vstd::seq_lib::to_multiset_contains(raw, c);
    }
    assert forall|i: int, j: int| 0 <= i < j < found.len() implies {
        ||| (#[trigger] found[i]).kind == ConflictKind::Overlapping && (#[trigger] found[j]).kind
            == ConflictKind::Adjacent
        ||| found[i].kind == found[j].kind && found[i].their_turn >= found[j].their_turn
    } by {
        assert(key(found[i]) <= key(found[j]));
    }
}

/// An expertise query names everyone whose touches cover any of the lines, each
/// of them once, and ranks them by how many lines they authored.
pub proof fn expert_queries_are_complete_and_ranked(
    history: Seq<HistoricalTouchModel>,
    file: Seq<char>,
    lines: Range<u32>,
)
    ensures
        ({
            let found = ranked_experts(history, file, lines);
            &&& forall|e: ExpertModel| #[trigger]
                found.contains(e) <==> e == expert(history, file, lines, e.author) && lines_by(
                    history,
                    file,
                    lines,
                    e.author,
                ) > 0
            &&& found.no_duplicates()
            &&& forall|i: int, j: int|
                0 <= i <= j < found.len() ==> (#[trigger] found[i]).lines_authored
                    >= (#[trigger] found[j]).lines_authored
        }),
{
    let who = authors(history, file, lines);
    let raw = Seq::new(who.len(), |i: int| expert(history, file, lines, who[i]));
    let key = |e: ExpertModel| -e.lines_authored;
    let found = ranked_experts(history, file, lines);
    order::sorting_is_stable(raw, key);
    lemma_authors_bear(history, file, lines);
    assert forall|e: ExpertModel| #[trigger] found.contains(e) <==> e == expert(
        history,
        file,
        lines,
        e.author,
    ) && lines_by(history, file, lines, e.author) > 0 by {
        vstd::seq_lib::to_multiset_contains(found, e);
        vstd::seq_lib::to_multiset_contains(raw, e);
        if raw.contains(e) {
            let i = choose|i: int| 0 <= i < raw.len() && raw[i] == e;
            assert(who[i] == e.author);
            assert(who.contains(e.author));
        }
        if e == expert(history, file, lines, e.author) && lines_by(history, file, lines, e.author)
            > 0 {
            assert(who.contains(e.author));
            let i = choose|i: int| 0 <= i < who.len() && who[i] == e.author;
            assert(raw[i] == e);
        }
    }
    assert(raw.no_duplicates()) by {
        assert forall|i: int, j: int| 0 <= i < raw.len() && 0 <= j < raw.len() && i != j implies raw[i]
            != raw[j] by {
            assert(who[i] != who[j]);
        }
    }
    assert(found.no_duplicates()) by {
        raw.lemma_multiset_has_no_duplicates();
        found.lemma_multiset_has_no_duplicates_conv();
    }
    assert forall|i: int, j: int| 0 <= i <= j < found.len() implies (
    #[trigger] found[i]).lines_authored >= (#[trigger] found[j]).lines_authored by {
        assert(key(found[i]) <= key(found[j]));
    }
}

/// Whether line `l` is one of `a`.
pub open spec fn on(a: Range<u32>, l: int) -> bool {
    a.start <= l < a.end
}

/// The lines that stand in both ranges.
pub open spec fn lines_in_both(a: Range<u32>, b: Range<u32>) -> Set<int> {
    Set::new(|l: int| on(a, l) && on(b, l))
}

/// The lines that stand between two ranges, behind the one and before the other.
pub open spec fn lines_between(a: Range<u32>, b: Range<u32>) -> Set<int> {
    Set::new(|l: int| a.end <= l < b.start || b.end <= l < a.start)
}

/// Ranges meet where some line is in both, are as far apart as there are lines
/// between them, and share as many lines as are in both.
pub proof fn ranges_are_measured_in_lines(a: Range<u32>, b: Range<u32>)
    requires
        a.start <= a.end,
        b.start <= b.end,
    ensures
        a.start < a.end && b.start < b.end ==> (meet(a, b) <==> exists|l: int|
            #[trigger] on(a, l) && on(b, l)),
        lines_between(a, b).finite(),
        distance(a, b) == lines_between(a, b).len(),
        lines_in_both(a, b).finite(),
        shared(a, b) == lines_in_both(a, b).len(),
{
    let low = if a.start >= b.start {
        a.start as int
    } else {
        b.start as int
    };
    let high = if a.end <= b.end {
        a.end as int
    } else {
        b.end as int
    };
    if a.start < a.end && b.start < b.end && meet(a, b) {
        assert(on(a, low) && on(b, low));
    }
    if low <= high {
        vstd::set_lib::lemma_int_range(low, high);
        assert(lines_in_both(a, b) =~= vstd::set_lib::set_int_range(low, high));
    } else {
        assert(lines_in_both(a, b) =~= Set::<int>::empty());
    }
    if a.end <= b.start {
        vstd::set_lib::lemma_int_range(a.end as int, b.start as int);
        assert(lines_between(a, b) =~= vstd::set_lib::set_int_range(a.end as int, b.start as int));
    } else if b.end <= a.start {
        vstd::set_lib::lemma_int_range(b.end as int, a.start as int);
        assert(lines_between(a, b) =~= vstd::set_lib::set_int_range(b.end as int, a.start as int));
    } else {
        assert(lines_between(a, b) =~= Set::<int>::empty());
    }
}

/// Whether two ranges collide: some line is in both. A range without lines, which
/// is a place between two lines, collides where it lies inside the other.
pub open spec fn collide(a: Range<u32>, b: Range<u32>) -> bool {
    if a.start < a.end && b.start < b.end {
        exists|l: int| #[trigger] on(a, l) && on(b, l)
    } else {
        b.start < a.end && a.start < b.end
    }
}

/// Whether the touch is another thread's and in the file, and either collides
/// with the lines or has no more than `proximity` lines between it and them.
pub open spec fn worth_a_warning(
    touch: LiveTouchModel,
    asking: ThreadId,
    file: Seq<char>,
    lines: Range<u32>,
    proximity: u32,
) -> bool {
    &&& touch.thread != asking
    &&& touch.file == file
    &&& collide(lines, touch.lines) || lines_between(lines, touch.lines).len() <= proximity
}

/// Whether a conflict with the touch at index `i` is told of before one with that at
/// index `j`.
pub open spec fn warned_before(first: ConflictModel, i: int, second: ConflictModel, j: int) -> bool {
    ||| first.kind == ConflictKind::Overlapping && second.kind == ConflictKind::Adjacent
    ||| first.kind == second.kind && first.their_turn > second.their_turn
    ||| first.kind == second.kind && first.their_turn == second.their_turn && i < j
}

/// Whether `found` answers a conflict query with the touches at the indices `from`.
pub open spec fn answers_with(
    found: Seq<ConflictModel>,
    from: Seq<int>,
    live: Seq<LiveTouchModel>,
    asking: ThreadId,
    file: Seq<char>,
    lines: Range<u32>,
    proximity: u32,
) -> bool {
    &&& from.len() == found.len()
    &&& forall|k: int|
        0 <= k < live.len() ==> (#[trigger] from.contains(k) <==> worth_a_warning(
            live[k],
            asking,
            file,
            lines,
            proximity,
        ))
    &&& forall|i: int|
        0 <= i < found.len() ==> {
            let touch = live[#[trigger] from[i]];
            &&& 0 <= from[i] < live.len()
            &&& found[i].other_thread == touch.thread
            &&& found[i].file == file
            &&& found[i].our_lines == lines
            &&& found[i].their_lines == touch.lines
            &&& found[i].their_turn == touch.turn
            &&& found[i].kind == ConflictKind::Overlapping <==> collide(lines, touch.lines)
        }
    &&& forall|i: int, j: int|
        0 <= i < j < found.len() ==> #[trigger] warned_before(found[i], from[i], found[j], from[j])
}

proof fn lemma_conflict_sources(
    live: Seq<LiveTouchModel>,
    asking: ThreadId,
    file: Seq<char>,
    lines: Range<u32>,
    proximity: u32,
) -> (from: Seq<int>)
    ensures
        ({
            let raw = conflicts_among(live, asking, file, lines, proximity);
            &&& from.len() == raw.len()
            &&& forall|i: int|
                0 <= i < from.len() ==> 0 <= #[trigger] from[i] < live.len() && conflict_with(
                    live[from[i]],
                    asking,
                    file,
                    lines,
                    proximity,
                ) == Some(raw[i])
            &&& forall|i: int, j: int|
                0 <= i < j < from.len() ==> #[trigger] from[i] < #[trigger] from[j]
            &&& forall|k: int|
                0 <= k < live.len() ==> (#[trigger] from.contains(k) <==> conflict_with(
                    live[k],
                    asking,
                    file,
                    lines,
                    proximity,
                ) is Some)
        }),
    decreases live.len(),
{
    if live.len() == 0 {
        Seq::empty()
    } else {
        let front = live.drop_last();
        let n = front.len() as int;
        let q = lemma_conflict_sources(front, asking, file, lines, proximity);
        let p = if conflict_with(live[n], asking, file, lines, proximity) is Some {
            q.push(n)
        } else {
            q
        };
        assert forall|i: int| 0 <= i < p.len() implies 0 <= #[trigger] p[i] < live.len()
            && conflict_with(live[p[i]], asking, file, lines, proximity) == Some(
            conflicts_among(live, asking, file, lines, proximity)[i],
        ) by {
            if i < q.len() {
                assert(p[i] == q[i]);
                assert(front[q[i]] == live[q[i]]);
            }
        }
        assert forall|i: int, j: int| 0 <= i < j < p.len() implies #[trigger] p[i]
            < #[trigger] p[j] by {
            assert(p[i] == q[i]);
            if j < q.len() {
                assert(p[j] == q[j]);
            }
        }
        assert forall|k: int| 0 <= k < live.len() implies (#[trigger] p.contains(k)
            <==> conflict_with(live[k], asking, file, lines, proximity) is Some) by {
            if k < n {
                assert(front[k] == live[k]);
                if q.contains(k) {
                    let m = choose|m: int| 0 <= m < q.len() && q[m] == k;
                    assert(p[m] == k);
                }
                if p.contains(k) {
                    let m = choose|m: int| 0 <= m < p.len() && p[m] == k;
                    assert(q[m] == k);
                    assert(q.contains(k));
                }
            } else {
                if p.len() > q.len() {
                    assert(p[q.len() as int] == k);
                }
                if p.contains(k) {
                    let m = choose|m: int| 0 <= m < p.len() && p[m] == k;
                    if m < q.len() {
                        assert(q[m] == p[m]);
                    }
                }
            }
        }
        p
    }
}

/// A conflict query tells of every touch of another thread in the file that has a
/// line in common with the lines asked about, and of every one with no more than
/// `proximity` lines in between; each once, of nothing else, and with the touch's
/// own thread, lines and turn. What overlaps comes first, then what is recent,
/// then what was touched first.
pub proof fn a_conflict_query_tells_of_every_collision(
    live: Seq<LiveTouchModel>,
    asking: ThreadId,
    file: Seq<char>,
    lines: Range<u32>,
    proximity: u32,
)
    requires
        lines.start <= lines.end,
        forall|k: int|
            0 <= k < live.len() ==> (#[trigger] live[k]).lines.start <= live[k].lines.end,
    ensures
        ({
            let found = order::sorted_by(
                conflicts_among(live, asking, file, lines, proximity),
                |c: ConflictModel| conflict_rank(c),
            );
            exists|from: Seq<int>|
                #[trigger] answers_with(found, from, live, asking, file, lines, proximity)
        }),
{
    let key = |c: ConflictModel| conflict_rank(c);
    let raw = conflicts_among(live, asking, file, lines, proximity);
    let found = order::sorted_by(raw, key);
    let q = lemma_conflict_sources(live, asking, file, lines, proximity);
    let p = order::sorting_rearranges(raw, key);
    let from = Seq::new(p.len(), |i: int| q[p[i]]);
    assert forall|k: int| 0 <= k < live.len() implies {
        &&& collide(lines, (#[trigger] live[k]).lines) == meet(lines, live[k].lines)
        &&& worth_a_warning(live[k], asking, file, lines, proximity) == (conflict_with(
            live[k],
            asking,
            file,
            lines,
            proximity,
        ) is Some)
    } by {
        ranges_are_measured_in_lines(lines, live[k].lines);
    }
    assert forall|k: int| 0 <= k < live.len() implies (#[trigger] from.contains(k)
        <==> worth_a_warning(live[k], asking, file, lines, proximity)) by {
        assert(live[k] == live[k]);
        if q.contains(k) {
            let m = choose|m: int| 0 <= m < q.len() && q[m] == k;
            assert(p.contains(m));
            let i = choose|i: int| 0 <= i < p.len() && p[i] == m;
            assert(from[i] == k);
        }
        if from.contains(k) {
            let i = choose|i: int| 0 <= i < from.len() && from[i] == k;
            assert(0 <= p[i] < raw.len());
            assert(q[p[i]] == k);
            assert(q.contains(k));
        }
    }
    assert forall|i: int| 0 <= i < found.len() implies {
        let touch = live[#[trigger] from[i]];
        &&& 0 <= from[i] < live.len()
        &&& found[i].other_thread == touch.thread
        &&& found[i].file == file
        &&& found[i].our_lines == lines
        &&& found[i].their_lines == touch.lines
        &&& found[i].their_turn == touch.turn
        &&& found[i].kind == ConflictKind::Overlapping <==> collide(lines, touch.lines)
    } by {
        assert(0 <= p[i] < raw.len());
        assert(from[i] == q[p[i]]);
        assert(found[i] == raw[p[i]]);
    }
    assert forall|i: int, j: int| 0 <= i < j < found.len() implies #[trigger] warned_before(
        found[i],
        from[i],
        found[j],
        from[j],
    ) by {
        assert(0 <= p[i] < raw.len() && 0 <= p[j] < raw.len());
        assert(found[i] == raw[p[i]] && found[j] == raw[p[j]]);
        assert(key(raw[p[i]]) <= key(raw[p[j]]));
        if p[i] < p[j] {
            assert(q[p[i]] < q[p[j]]);
        }
    }
    assert(answers_with(found, from, live, asking, file, lines, proximity));
}

/// Every line of the file's `lines` that a touch of the author wrote, as the touch's
/// index and the line.
pub open spec fn lines_written(
    history: Seq<HistoricalTouchModel>,
    file: Seq<char>,
    lines: Range<u32>,
    author: ActorId,
) -> Set<(int, int)> {
    Set::new(
        |at: (int, int)|
            {
                &&& 0 <= at.0 < history.len()
                &&& history[at.0].author == author
                &&& history[at.0].file == file
                &&& on(lines, at.1) && on(history[at.0].lines, at.1)
            },
    )
}

/// Every commit of the author's touches that wrote any of the lines, as the touch's
/// index and the commit's number in it.
pub open spec fn commits_made(
    history: Seq<HistoricalTouchModel>,
    file: Seq<char>,
    lines: Range<u32>,
    author: ActorId,
) -> Set<(int, int)> {
    Set::new(
        |at: (int, int)|
            {
                &&& 0 <= at.0 < history.len()
                &&& history[at.0].author == author
                &&& history[at.0].file == file
                &&& exists|l: int| #[trigger] on(lines, l) && on(history[at.0].lines, l)
                &&& 0 <= at.1 < history[at.0].commits
            },
    )
}

proof fn lemma_row_added(fewer: Set<(int, int)>, more: Set<(int, int)>, k: int, lo: int, hi: int)
    requires
        lo <= hi,
        fewer.finite(),
        forall|at: (int, int)| #[trigger] fewer.contains(at) ==> at.0 != k,
        forall|at: (int, int)|
            #[trigger] more.contains(at) <==> fewer.contains(at) || at.0 == k && lo <= at.1 < hi,
    ensures
        more.finite(),
        more.len() == fewer.len() + (hi - lo),
    decreases hi - lo,
{
    if lo == hi {
        assert(more =~= fewer);
    } else {
        let less = more.remove((k, hi - 1));
        assert(more =~= less.insert((k, hi - 1)));
        lemma_row_added(fewer, less, k, lo, hi - 1);
    }
}

proof fn lemma_sums_are_counts(
    history: Seq<HistoricalTouchModel>,
    file: Seq<char>,
    lines: Range<u32>,
    author: ActorId,
)
    ensures
        lines_written(history, file, lines, author).finite(),
        lines_by(history, file, lines, author) == lines_written(history, file, lines, author).len(),
        commits_made(history, file, lines, author).finite(),
        commits_by(history, file, lines, author) == commits_made(
            history,
            file,
            lines,
            author,
        ).len(),
    decreases history.len(),
{
    let now = lines_written(history, file, lines, author);
    let made = commits_made(history, file, lines, author);
    if history.len() == 0 {
        assert(now =~= Set::<(int, int)>::empty());
        assert(made =~= Set::<(int, int)>::empty());
    } else {
        let front = history.drop_last();
        let n = front.len() as int;
        let touch = history.last();
        lemma_sums_are_counts(front, file, lines, author);
        let before = lines_written(front, file, lines, author);
        let made_before = commits_made(front, file, lines, author);
        let a = lines;
        let b = touch.lines;
        let low = if a.start >= b.start {
            a.start as int
        } else {
            b.start as int
        };
        let high = if a.end <= b.end {
            a.end as int
        } else {
            b.end as int
        };
        assert forall|at: (int, int)| at.0 < n implies now.contains(at) == before.contains(at)
            && made.contains(at) == made_before.contains(at) by {
            if 0 <= at.0 {
                assert(front[at.0] == history[at.0]);
            }
        }
        if bears_on(touch, file, lines) && touch.author == author {
            assert(on(a, low) && on(b, low));
            lemma_row_added(before, now, n, low, high);
            lemma_row_added(made_before, made, n, 0, touch.commits as int);
        } else {
            assert forall|l: int| on(a, l) && on(b, l) implies shared(a, b) > 0 by {}
            assert(now =~= before);
            assert(made =~= made_before);
        }
    }
}

/// Whether `k` is the first touch of its author that wrote any of the lines.
pub open spec fn first_wrote(
    history: Seq<HistoricalTouchModel>,
    file: Seq<char>,
    lines: Range<u32>,
    k: int,
) -> bool {
    &&& 0 <= k < history.len()
    &&& history[k].file == file
    &&& exists|l: int| #[trigger] on(lines, l) && on(history[k].lines, l)
    &&& forall|m: int, l: int|
        0 <= m < k && (#[trigger] history[m]).file == file && history[m].author
            == history[k].author && #[trigger] on(lines, l) ==> !on(history[m].lines, l)
}

/// Whether an author who first wrote at index `i` is named before one who did at
/// index `j`.
pub open spec fn named_before(first: ExpertModel, i: int, second: ExpertModel, j: int) -> bool {
    ||| first.lines_authored > second.lines_authored
    ||| first.lines_authored == second.lines_authored && i < j
}

/// Whether `found` answers an expertise query with the authors of the touches at
/// the indices `from`.
pub open spec fn names_experts(
    found: Seq<ExpertModel>,
    from: Seq<int>,
    history: Seq<HistoricalTouchModel>,
    file: Seq<char>,
    lines: Range<u32>,
) -> bool {
    &&& from.len() == found.len()
    &&& forall|k: int| #[trigger] from.contains(k) <==> first_wrote(history, file, lines, k)
    &&& forall|i: int|
        0 <= i < found.len() ==> {
            let e = found[i];
            let author = history[#[trigger] from[i]].author;
            let span = if lines.start < lines.end {
                lines.end - lines.start
            } else {
                1
            };
            &&& e.author == author
            &&& e.lines_authored == lines_written(history, file, lines, author).len()
            &&& e.commits == commits_made(history, file, lines, author).len()
            &&& e.reason == "wrote "@ + text::decimal(e.lines_authored as nat) + " of these "@
                + text::decimal(span as nat) + " lines, across "@ + text::decimal(e.commits as nat)
                + if e.commits == 1 {
                " commit"@
            } else {
                " commits"@
            }
        }
    &&& forall|i: int, j: int|
        0 <= i < j < found.len() ==> #[trigger] named_before(found[i], from[i], found[j], from[j])
}

proof fn lemma_author_sources(
    history: Seq<HistoricalTouchModel>,
    file: Seq<char>,
    lines: Range<u32>,
) -> (from: Seq<int>)
    ensures
        ({
            let who = authors(history, file, lines);
            &&& from.len() == who.len()
            &&& forall|i: int|
                0 <= i < from.len() ==> 0 <= #[trigger] from[i] < history.len()
                    && history[from[i]].author == who[i]
            &&& forall|i: int, j: int|
                0 <= i < j < from.len() ==> #[trigger] from[i] < #[trigger] from[j]
            &&& forall|k: int| #[trigger] from.contains(k) <==> first_wrote(history, file, lines, k)
        }),
    decreases history.len(),
{
    if history.len() == 0 {
        Seq::empty()
    } else {
        let front = history.drop_last();
        let n = front.len() as int;
        let touch = history.last();
        assert(history[n] == touch);
        let q = lemma_author_sources(front, file, lines);
        let rest = authors(front, file, lines);
        let fresh = bears_on(touch, file, lines) && !rest.contains(touch.author);
        let p = if fresh {
            q.push(n)
        } else {
            q
        };
        assert forall|k: int| k < n implies first_wrote(history, file, lines, k) == first_wrote(
            front,
            file,
            lines,
            k,
        ) by {
            assert forall|m: int| 0 <= m <= k implies history[m] == front[m] by {}
        }
        assert(first_wrote(history, file, lines, n) == fresh) by {
            lemma_authors_bear(front, file, lines);
            let a = lines;
            let b = touch.lines;
            let low = if a.start >= b.start {
                a.start as int
            } else {
                b.start as int
            };
            if bears_on(touch, file, lines) {
                assert(on(a, low) && on(b, low));
            }
            lemma_sums_are_counts(front, file, lines, touch.author);
            let written = lines_written(front, file, lines, touch.author);
            if rest.contains(touch.author) {
                assert(written.len() > 0);
                let at = written.choose();
                assert(written.contains(at)) by {
                    if written =~= Set::<(int, int)>::empty() {
                        assert(written.len() == 0);
                    }
                }
                assert(history[at.0] == front[at.0]);
                assert(on(lines, at.1) && on(history[at.0].lines, at.1));
            } else {
                assert forall|m: int, l: int|
                    0 <= m < n && (#[trigger] history[m]).file == file && history[m].author
                        == history[n].author && #[trigger] on(lines, l) implies !on(
                    history[m].lines,
                    l,
                ) by {
                    if on(history[m].lines, l) {
                        assert(front[m] == history[m]);
                        assert(written.contains((m, l)));
                        assert(written.len() == 0);
                        assert(written =~= Set::<(int, int)>::empty());
                    }
                }
            }
        }
        assert forall|k: int| #[trigger] p.contains(k) <==> first_wrote(
            history,
            file,
            lines,
            k,
        ) by {
            if q.contains(k) {
                let m = choose|m: int| 0 <= m < q.len() && q[m] == k;
                assert(p[m] == k);
            }
            if fresh && k == n {
                assert(p[q.len() as int] == k);
            }
            if p.contains(k) {
                let m = choose|m: int| 0 <= m < p.len() && p[m] == k;
                if m < q.len() {
                    assert(q[m] == k);
                    assert(q.contains(k));
                }
            }
        }
        assert forall|i: int, j: int| 0 <= i < j < p.len() implies #[trigger] p[i]
            < #[trigger] p[j] by {
            assert(p[i] == q[i]);
            if j < q.len() {
                assert(p[j] == q[j]);
            }
        }
        assert forall|i: int| 0 <= i < p.len() implies 0 <= #[trigger] p[i] < history.len()
            && history[p[i]].author == authors(history, file, lines)[i] by {
            if i < q.len() {
                assert(p[i] == q[i]);
                assert(front[q[i]] == history[q[i]]);
            }
        }
        p
    }
}

/// An expertise query names every author with a line among those asked about, once,
/// with how many such lines their touches wrote and in how many commits, and says
/// so in words. Who wrote most comes first, then who first wrote.
pub proof fn an_expertise_query_counts_what_was_written(
    history: Seq<HistoricalTouchModel>,
    file: Seq<char>,
    lines: Range<u32>,
)
    ensures
        exists|from: Seq<int>|
            #[trigger] names_experts(
                ranked_experts(history, file, lines),
                from,
                history,
                file,
                lines,
            ),
{
    reveal_strlit(" commit");
    reveal_strlit(" commits");
    reveal_strlit("s");
    reveal_strlit("");
    let who = authors(history, file, lines);
    let raw = Seq::new(who.len(), |i: int| expert(history, file, lines, who[i]));
    let key = |e: ExpertModel| -e.lines_authored;
    let found = ranked_experts(history, file, lines);
    let q = lemma_author_sources(history, file, lines);
    let p = order::sorting_rearranges(raw, key);
    let from = Seq::new(p.len(), |i: int| q[p[i]]);
    assert forall|k: int| #[trigger] from.contains(k) <==> first_wrote(history, file, lines, k) by {
        if q.contains(k) {
            let m = choose|m: int| 0 <= m < q.len() && q[m] == k;
            assert(p.contains(m));
            let i = choose|i: int| 0 <= i < p.len() && p[i] == m;
            assert(from[i] == k);
        }
        if from.contains(k) {
            let i = choose|i: int| 0 <= i < from.len() && from[i] == k;
            assert(0 <= p[i] < raw.len());
            assert(q[p[i]] == k);
            assert(q.contains(k));
        }
    }
    assert forall|i: int| 0 <= i < found.len() implies {
        let e = found[i];
        let author = history[#[trigger] from[i]].author;
        let span = if lines.start < lines.end {
            lines.end - lines.start
        } else {
            1
        };
        &&& e.author == author
        &&& e.lines_authored == lines_written(history, file, lines, author).len()
        &&& e.commits == commits_made(history, file, lines, author).len()
        &&& e.reason == "wrote "@ + text::decimal(e.lines_authored as nat) + " of these "@
            + text::decimal(span as nat) + " lines, across "@ + text::decimal(e.commits as nat)
            + if e.commits == 1 {
            " commit"@
        } else {
            " commits"@
        }
    } by {
        assert(0 <= p[i] < raw.len());
        assert(from[i] == q[p[i]]);
        assert(found[i] == raw[p[i]]);
        let e = found[i];
        lemma_sums_are_counts(history, file, lines, e.author);
        let head = "wrote "@ + text::decimal(e.lines_authored as nat) + " of these "@
            + text::decimal(spoken_span(lines) as nat) + " lines, across "@ + text::decimal(
            e.commits as nat,
        );
        assert(head + " commit"@ + "s"@ =~= head + " commits"@);
        assert(head + " commit"@ + ""@ =~= head + " commit"@);
    }
    assert forall|i: int, j: int| 0 <= i < j < found.len() implies #[trigger] named_before(
        found[i],
        from[i],
        found[j],
        from[j],
    ) by {
        assert(0 <= p[i] < raw.len() && 0 <= p[j] < raw.len());
        assert(found[i] == raw[p[i]] && found[j] == raw[p[j]]);
        assert(key(raw[p[i]]) <= key(raw[p[j]]));
        if p[i] < p[j] {
            assert(q[p[i]] < q[p[j]]);
        }
    }
    assert(names_experts(found, from, history, file, lines));
}

} // verus!
