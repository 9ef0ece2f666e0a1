//! What the shell promises of how it opens.

use vstd::prelude::*;

use crate::lists;
use crate::model::anchor;
use crate::model::anchor::BlockKind;
use crate::model::comment::Delivery;
use crate::seed;
use crate::seed::{
    SeedAnchor, SeedCommentModel, SeedDivergenceModel, SeedProjectModel, SeedThreadModel, Status,
};
use crate::shell::opening;
use crate::shell::state::{Forwarding, Pane, Proactive, ShellModel, TurnModel};
use crate::shell::threads::{
    AgentReplyModel, CommentReplyModel, ProvenanceModel, SentRecordModel, ThreadUiModel,
    UiCommentModel,
};
use crate::shell::words;
use crate::text;

verus! {

/// A thread starts on its first turn with nothing said in it, its agent at work exactly
/// where the thread is running.
pub proof fn a_thread_starts_with_nothing_said(thread: SeedThreadModel, project: Seq<char>)
    ensures
        ({
            let t = opening::fresh(thread, project);
            &&& t.seed == thread
            &&& t.project == project
            &&& t.comments == Seq::<UiCommentModel>::empty()
            &&& t.replies == Seq::<AgentReplyModel>::empty()
            &&& t.sent == Seq::<SentRecordModel>::empty()
            &&& t.turn == 1
            &&& t.unread == thread.unread
            &&& t.agent_busy <==> thread.status == Status::Running
        }),
{
}

/// The threads stand in the order of the projects and, in a project, in its order, each
/// under its project's name.
pub proof fn threads_stand_project_by_project(
    a: Seq<SeedProjectModel>,
    project: SeedProjectModel,
    k: int,
)
    requires
        0 <= k < project.threads.len(),
    ensures
        ({
            let before = opening::fresh_of(a);
            let all = opening::fresh_of(a.push(project));
            &&& opening::fresh_of(Seq::empty()) == Seq::<ThreadUiModel>::empty()
            &&& all.len() == before.len() + project.threads.len()
            &&& all.take(before.len() as int) == before
            &&& all[before.len() + k] == opening::fresh(project.threads[k], project.name)
        }),
{
    let before = opening::fresh_of(a);
    let all = opening::fresh_of(a.push(project));
    assert(a.push(project).drop_last() =~= a);
    assert(all.take(before.len() as int) =~= before);
}

/// What a seeded comment points at: one block, or a run of lines with both its ends,
/// chosen on purpose.
pub proof fn a_seeded_comment_is_anchored_where_it_points(thread: ThreadUiModel, a: usize, b: usize)
    requires
        a <= b < u32::MAX,
    ensures
        ({
            let prose = opening::seeded_anchor(thread, SeedAnchor::Prose(a));
            &&& prose.file == thread.prose_path()
            &&& prose.kind == BlockKind::Paragraph
            &&& prose.captured_lines.start == a
            &&& prose.captured_lines.end == a + 1
            &&& !prose.auto_selected
            &&& prose == anchor::captured(
                thread.prose_snapshot(),
                BlockKind::Paragraph,
                prose.captured_lines,
                false,
            )
        }),
        ({
            let diff = opening::seeded_anchor(thread, SeedAnchor::Diff(a, b));
            &&& diff.file == thread.seed.diff_dir + thread.seed.diff_file
            &&& diff.kind == BlockKind::DiffHunk
            &&& diff.captured_lines.start == a
            &&& diff.captured_lines.end == b + 1
            &&& !diff.auto_selected
            &&& diff == anchor::captured(
                thread.diff_snapshot(),
                BlockKind::DiffHunk,
                diff.captured_lines,
                false,
            )
        }),
{
}

/// Whether `now` is `was` with one comment more at the end.
pub open spec fn grown(was: ThreadUiModel, now: ThreadUiModel) -> bool {
    &&& now == ThreadUiModel { comments: now.comments, ..was }
    &&& now.comments.len() == was.comments.len() + 1
    &&& forall|k: int|
        0 <= k < was.comments.len() ==> #[trigger] now.comments[k] == was.comments[k]
}

/// Whether `i` is the first thread with that title.
pub open spec fn first_titled(threads: Seq<ThreadUiModel>, title: Seq<char>, i: int) -> bool {
    &&& 0 <= i < threads.len()
    &&& threads[i].seed.title == title
    &&& forall|j: int| 0 <= j < i ==> (#[trigger] threads[j]).seed.title != title
}

proof fn lemma_first_titled(threads: Seq<ThreadUiModel>, title: Seq<char>, i: int)
    ensures
        opening::place_titled(threads, title) == Some(i) <==> first_titled(threads, title, i),
        opening::place_titled(threads, title) is None <==> forall|j: int|
            0 <= j < threads.len() ==> (#[trigger] threads[j]).seed.title != title,
{
    let p = |t: ThreadUiModel| t.seed.title == title;
    lists::a_place_is_the_first(threads, p, i);
    lists::lemma_position(threads, p);
    if first_titled(threads, title, i) {
        lists::lemma_is_position(threads, p, i);
    }
    if opening::place_titled(threads, title) == Some(i) {
        assert forall|j: int| 0 <= j < i implies (#[trigger] threads[j]).seed.title != title by {
            assert(!p(threads[j]));
        }
    }
    if opening::place_titled(threads, title) is None {
        assert forall|j: int| 0 <= j < threads.len() implies (#[trigger] threads[j]).seed.title
            != title by {
            assert(!p(threads[j]));
        }
    }
}

/// A comment that was already there lands at the end of its thread, as it was written,
/// waiting for the turn to end if the agent is at work or wrote it. One for a thread that
/// is not there is left out.
pub proof fn a_seeded_comment_lands_in_its_thread(m: ShellModel, c: SeedCommentModel, i: int)
    requires
        m.next_id < u32::MAX,
    ensures
        first_titled(m.threads, c.thread, i) ==> {
            let after = m.seeded(c);
            let was = m.threads[i];
            let now = after.threads[i];
            let landed = now.comments[was.comments.len() as int];
            &&& after == ShellModel { threads: after.threads, next_id: after.next_id, ..m }
            &&& after.next_id == m.next_id + 1
            &&& after.threads == m.threads.update(i, now)
            &&& grown(was, now)
            &&& landed.id == m.next_id + 1
            &&& landed.body == c.body
            &&& landed.author == c.author
            &&& landed.anchor == opening::seeded_anchor(was, c.anchor)
            &&& landed.resolved == was.resolved_in(landed.anchor)
            &&& landed.mentions == words::mentioned(text::words(c.body))
            &&& landed.handle == words::slug_of(was.seed) + seq!['-'] + text::decimal(
                was.comments.len() + 1,
            )
            &&& landed.origin == ProvenanceModel::Local
            &&& landed.delivery == Delivery::Queued <==> was.agent_busy
                || seed::everyone()[c.author as int].agent
            &&& landed.delivery == Delivery::Queued || landed.delivery == Delivery::Pending
            &&& landed.divergence is None
            &&& landed.about is None
            &&& landed.replies == Seq::<CommentReplyModel>::empty()
        },
        (forall|j: int| 0 <= j < m.threads.len() ==> (#[trigger] m.threads[j]).seed.title
            != c.thread) ==> m.seeded(c) == m,
{
    lemma_first_titled(m.threads, c.thread, i);
    if first_titled(m.threads, c.thread, i) {
        let was = m.threads[i];
        assert(was.next_handle() =~= words::slug_of(was.seed) + seq!['-'] + text::decimal(
            was.comments.len() + 1,
        ));
        let after = m.seeded(c);
        assert(after.threads =~= m.threads.update(i, after.threads[i]));
    }
}

/// A divergence is flagged at the end of each of its sides' threads, by the agent, at the
/// block where that side stated its approach, withheld, in words that name the owner,
/// the subject, both approaches and the other thread.
pub proof fn a_divergence_is_flagged_on_its_side(
    m: ShellModel,
    d: int,
    divergence: SeedDivergenceModel,
    title: Seq<char>,
    i: int,
)
    requires
        m.next_id < u32::MAX,
        divergence.a_thread != divergence.b_thread,
        0 <= d <= usize::MAX,
    ensures
        first_titled(m.threads, title, i) && (title == divergence.a_thread || title
            == divergence.b_thread) ==> {
            let after = m.flagged(d, divergence, title);
            let was = m.threads[i];
            let now = after.threads[i];
            let flag = now.comments[was.comments.len() as int];
            let on_a = title == divergence.a_thread;
            let (mine, theirs, other, block) = if on_a {
                (
                    divergence.a_approach,
                    divergence.b_approach,
                    divergence.b_thread,
                    divergence.a_block,
                )
            } else {
                (
                    divergence.b_approach,
                    divergence.a_approach,
                    divergence.a_thread,
                    divergence.b_block,
                )
            };
            let body = seq!['@'] + seed::everyone()[divergence.owner as int].handle
                + " both threads are deciding "@ + divergence.subject + ". Here we "@ + mine
                + "; \""@ + other + "\" will "@ + theirs
                + ".                      Nothing overlaps, so this merges cleanly and ships twice."@;
            &&& after == ShellModel { threads: after.threads, next_id: after.next_id, ..m }
            &&& after.next_id == m.next_id + 1
            &&& after.threads == m.threads.update(i, now)
            &&& grown(was, now)
            &&& flag.id == m.next_id + 1
            &&& flag.body == body
            &&& flag.author == seed::first_agent(seed::everyone()) as usize
            &&& flag.anchor == opening::seeded_anchor(was, SeedAnchor::Prose(block))
            &&& flag.resolved == was.resolved_in(flag.anchor)
            &&& flag.mentions == words::mentioned(text::words(body))
            &&& flag.handle == words::slug_of(was.seed) + seq!['-'] + text::decimal(
                was.comments.len() + 1,
            )
            &&& flag.origin == ProvenanceModel::Local
            &&& flag.delivery == Delivery::Withheld
            &&& flag.divergence == Some(d as usize)
            &&& flag.about is None
            &&& flag.replies == Seq::<CommentReplyModel>::empty()
        },
        title != divergence.a_thread && title != divergence.b_thread ==> m.flagged(
            d,
            divergence,
            title,
        ) == m,
        (forall|j: int| 0 <= j < m.threads.len() ==> (#[trigger] m.threads[j]).seed.title != title)
            ==> m.flagged(d, divergence, title) == m,
{
    lemma_first_titled(m.threads, title, i);
    reveal_strlit("@");
    assert("@"@ =~= seq!['@']);
    if first_titled(m.threads, title, i) && (title == divergence.a_thread || title
        == divergence.b_thread) {
        let was = m.threads[i];
        assert(was.next_handle() =~= words::slug_of(was.seed) + seq!['-'] + text::decimal(
            was.comments.len() + 1,
        ));
        let after = m.flagged(d, divergence, title);
        assert(after.threads =~= m.threads.update(i, after.threads[i]));
    }
}

/// What the comments say.
pub open spec fn bodies(comments: Seq<UiCommentModel>) -> Seq<Seq<char>> {
    comments.map_values(|c: UiCommentModel| c.body)
}

proof fn lemma_titles_stay(m: ShellModel, comments: Seq<SeedCommentModel>, n: int)
    requires
        0 <= n <= comments.len(),
    ensures
        m.all_seeded(comments, n).threads.len() == m.threads.len(),
        forall|j: int|
            0 <= j < m.threads.len() ==> (#[trigger] m.all_seeded(comments, n).threads[j]).seed
                == m.threads[j].seed,
    decreases n,
{
    if n > 0 {
        lemma_titles_stay(m, comments, n - 1);
        let before = m.all_seeded(comments, n - 1);
        lists::lemma_position(
            before.threads,
            |t: ThreadUiModel| t.seed.title == comments[n - 1].thread,
        );
        let after = m.all_seeded(comments, n);
        assert forall|j: int| 0 <= j < m.threads.len() implies (#[trigger] after.threads[j]).seed
            == m.threads[j].seed by {
            assert(before.threads[j].seed == m.threads[j].seed);
        }
    }
}

/// Each thread holds the comments that were already there for it, in their order.
pub proof fn each_thread_holds_its_seeded_comments(
    m: ShellModel,
    comments: Seq<SeedCommentModel>,
    i: int,
)
    requires
        0 <= i < m.threads.len(),
        m.threads[i].comments.len() == 0,
    ensures
        lists::picks(
            bodies(m.all_seeded(comments, comments.len() as int).threads[i].comments),
            comments.len() as int,
            |k: int| first_titled(m.threads, comments[k].thread, i),
            |k: int| comments[k].body,
        ),
{
    let n = comments.len() as int;
    let out = |k: int| bodies(m.all_seeded(comments, k).threads[i].comments);
    let pick = |k: int| first_titled(m.threads, comments[k].thread, i);
    let make = |k: int| comments[k].body;
    assert(out(0) =~= Seq::<Seq<char>>::empty());
    assert forall|k: int| 0 <= k < n implies #[trigger] lists::picks_next(out, k, pick, make) by {
        lemma_titles_stay(m, comments, k);
        let before = m.all_seeded(comments, k);
        let title = comments[k].thread;
        lemma_first_titled(before.threads, title, i);
        assert(first_titled(before.threads, title, i) == first_titled(m.threads, title, i)) by {
            assert(before.threads[i].seed == m.threads[i].seed);
            if first_titled(before.threads, title, i) {
                assert forall|j: int| 0 <= j < i implies (#[trigger] m.threads[j]).seed.title
                    != title by {
                    assert(before.threads[j].seed.title != title);
                }
            }
            if first_titled(m.threads, title, i) {
                assert forall|j: int| 0 <= j < i implies (#[trigger] before.threads[j]).seed.title
                    != title by {
                    assert(m.threads[j].seed.title != title);
                }
            }
        }
        lists::lemma_position(before.threads, |t: ThreadUiModel| t.seed.title == title);
        let after = m.all_seeded(comments, k + 1);
        if pick(k) {
            assert(bodies(after.threads[i].comments) =~= bodies(before.threads[i].comments).push(
                comments[k].body,
            ));
        } else {
            assert(after.threads[i] == before.threads[i]);
        }
    }
    lists::lemma_picks(out, n, pick, make);
}

/// The agents at work when the shell opens have nothing to say when they are done, and
/// are done in four minutes or up to forty seconds later, by threes.
pub proof fn agents_at_work_finish_on_a_stagger(threads: Seq<ThreadUiModel>)
    ensures
        lists::picks(
            opening::under_way(threads, threads.len() as int),
            threads.len() as int,
            |i: int| threads[i].agent_busy,
            |i: int|
                TurnModel {
                    thread: i as usize,
                    replies: Seq::empty(),
                    millis: if i % 3 == 0 {
                        240_000
                    } else if i % 3 == 1 {
                        260_000
                    } else {
                        280_000
                    },
                },
        ),
{
    let n = threads.len() as int;
    let out = |k: int| opening::under_way(threads, k);
    let pick = |i: int| threads[i].agent_busy;
    let make = |i: int|
        TurnModel {
            thread: i as usize,
            replies: Seq::empty(),
            millis: if i % 3 == 0 {
                240_000
            } else if i % 3 == 1 {
                260_000
            } else {
                280_000
            },
        };
    assert forall|k: int| 0 <= k < n implies #[trigger] lists::picks_next(out, k, pick, make) by {}
    lists::lemma_picks(out, n, pick, make);
}

/// The state after `h` sides were flagged: of each divergence first the one, then the
/// other.
spec fn half_flagged(m: ShellModel, ds: Seq<SeedDivergenceModel>, h: int) -> ShellModel {
    if h % 2 == 0 {
        m.all_flagged(ds, h / 2)
    } else {
        m.all_flagged(ds, h / 2).flagged(h / 2, ds[h / 2], ds[h / 2].a_thread)
    }
}

/// Side `h` of the divergences: of each first the one, then the other.
pub open spec fn side(ds: Seq<SeedDivergenceModel>, h: int) -> Seq<char> {
    if h % 2 == 0 {
        ds[h / 2].a_thread
    } else {
        ds[h / 2].b_thread
    }
}

/// The divergences the comments from `n` on flag.
pub open spec fn flags(comments: Seq<UiCommentModel>, n: int) -> Seq<Option<usize>> {
    comments.skip(n).map_values(|c: UiCommentModel| c.divergence)
}

proof fn lemma_flagged(m: ShellModel, d: int, divergence: SeedDivergenceModel, title: Seq<char>)
    requires
        title == divergence.a_thread || title == divergence.b_thread,
    ensures
        ({
            let after = m.flagged(d, divergence, title);
            &&& after.threads.len() == m.threads.len()
            &&& forall|j: int|
                #![trigger after.threads[j]]
                0 <= j < m.threads.len() ==> {
                    let was = m.threads[j].comments;
                    let now = after.threads[j].comments;
                    &&& after.threads[j].seed == m.threads[j].seed
                    &&& first_titled(m.threads, title, j) ==> now.len() == was.len() + 1
                        && now.take(was.len() as int) == was && now.last().divergence == Some(
                        d as usize,
                    )
                    &&& !first_titled(m.threads, title, j) ==> now == was
                }
        }),
{
    let after = m.flagged(d, divergence, title);
    lists::lemma_position(m.threads, |t: ThreadUiModel| t.seed.title == title);
    assert forall|j: int|
        #![trigger after.threads[j]]
        0 <= j < m.threads.len() implies {
        let was = m.threads[j].comments;
        let now = after.threads[j].comments;
        &&& after.threads[j].seed == m.threads[j].seed
        &&& first_titled(m.threads, title, j) ==> now.len() == was.len() + 1 && now.take(
            was.len() as int,
        ) == was && now.last().divergence == Some(d as usize)
        &&& !first_titled(m.threads, title, j) ==> now == was
    } by {
        lemma_first_titled(m.threads, title, j);
        let was = m.threads[j].comments;
        let now = after.threads[j].comments;
        if first_titled(m.threads, title, j) {
            assert(now.take(was.len() as int) =~= was);
        }
    }
}

proof fn lemma_same_titles(a: Seq<ThreadUiModel>, b: Seq<ThreadUiModel>, title: Seq<char>, i: int)
    requires
        a.len() == b.len(),
        forall|j: int| 0 <= j < a.len() ==> (#[trigger] a[j]).seed == b[j].seed,
    ensures
        first_titled(a, title, i) == first_titled(b, title, i),
{
    if 0 <= i < a.len() {
        assert(a[i].seed == b[i].seed);
    }
    if first_titled(a, title, i) {
        assert forall|j: int| 0 <= j < i implies (#[trigger] b[j]).seed.title != title by {
            assert(a[j].seed == b[j].seed);
        }
    }
    if first_titled(b, title, i) {
        assert forall|j: int| 0 <= j < i implies (#[trigger] a[j]).seed.title != title by {
            assert(a[j].seed == b[j].seed);
        }
    }
}

proof fn lemma_next_side(m: ShellModel, ds: Seq<SeedDivergenceModel>, h: int)
    requires
        0 <= h < 2 * ds.len(),
    ensures
        half_flagged(m, ds, h + 1) == half_flagged(m, ds, h).flagged(h / 2, ds[h / 2], side(ds, h)),
{
    if h % 2 == 0 {
        assert((h + 1) / 2 == h / 2);
        assert((h + 1) % 2 == 1);
    } else {
        assert((h + 1) / 2 == h / 2 + 1);
        assert((h + 1) % 2 == 0);
    }
}

proof fn lemma_half_flagged_keeps(m: ShellModel, ds: Seq<SeedDivergenceModel>, h: int)
    requires
        0 <= h <= 2 * ds.len(),
    ensures
        ({
            let after = half_flagged(m, ds, h);
            &&& after.threads.len() == m.threads.len()
            &&& forall|j: int|
                #![trigger after.threads[j]]
                0 <= j < m.threads.len() ==> {
                    &&& after.threads[j].seed == m.threads[j].seed
                    &&& m.threads[j].comments.len() <= after.threads[j].comments.len()
                    &&& after.threads[j].comments.take(m.threads[j].comments.len() as int)
                        == m.threads[j].comments
                }
        }),
    decreases h,
{
    let after = half_flagged(m, ds, h);
    if h == 0 {
        assert forall|j: int|
            #![trigger after.threads[j]]
            0 <= j < m.threads.len() implies after.threads[j].comments.take(
            m.threads[j].comments.len() as int,
        ) == m.threads[j].comments by {
            assert(m.threads[j].comments.take(m.threads[j].comments.len() as int)
                =~= m.threads[j].comments);
        }
    } else {
        lemma_half_flagged_keeps(m, ds, h - 1);
        lemma_next_side(m, ds, h - 1);
        let before = half_flagged(m, ds, h - 1);
        lemma_flagged(before, (h - 1) / 2, ds[(h - 1) / 2], side(ds, h - 1));
        assert forall|j: int|
            #![trigger after.threads[j]]
            0 <= j < m.threads.len() implies {
            &&& after.threads[j].seed == m.threads[j].seed
            &&& m.threads[j].comments.len() <= after.threads[j].comments.len()
            &&& after.threads[j].comments.take(m.threads[j].comments.len() as int)
                == m.threads[j].comments
        } by {
            let n = m.threads[j].comments.len() as int;
            let mid = before.threads[j].comments;
            let now = after.threads[j].comments;
            assert(before.threads[j].seed == m.threads[j].seed);
            if first_titled(before.threads, side(ds, h - 1), j) {
                assert(now.take(n) =~= now.take(mid.len() as int).take(n));
            }
        }
    }
}

proof fn lemma_flag_step(m: ShellModel, ds: Seq<SeedDivergenceModel>, h: int, i: int)
    requires
        0 <= i < m.threads.len(),
        0 <= h < 2 * ds.len(),
    ensures
        ({
            let n = m.threads[i].comments.len() as int;
            let before = flags(half_flagged(m, ds, h).threads[i].comments, n);
            flags(half_flagged(m, ds, h + 1).threads[i].comments, n) == if first_titled(
                m.threads,
                side(ds, h),
                i,
            ) {
                before.push(Some((h / 2) as usize))
            } else {
                before
            }
        }),
{
    let n = m.threads[i].comments.len() as int;
    let before = half_flagged(m, ds, h);
    let title = side(ds, h);
    lemma_half_flagged_keeps(m, ds, h);
    lemma_next_side(m, ds, h);
    lemma_flagged(before, h / 2, ds[h / 2], title);
    lemma_same_titles(before.threads, m.threads, title, i);
    let after = half_flagged(m, ds, h + 1);
    let mid = before.threads[i].comments;
    let now = after.threads[i].comments;
    assert(mid.len() >= n);
    if first_titled(m.threads, title, i) {
        assert forall|k: int| 0 <= k < mid.len() implies now[k] == mid[k] by {
            assert(now[k] == now.take(mid.len() as int)[k]);
        }
        assert(now =~= mid.push(now.last()));
        assert(now.skip(n) =~= mid.skip(n).push(now.last()));
        assert(flags(now, n) =~= flags(mid, n).push(Some((h / 2) as usize)));
    }
}

/// Each divergence is flagged in both its threads, and in no other; what was said there
/// before stays, and the flags follow in the order of the divergences.
pub proof fn every_divergence_is_flagged_on_both_sides(
    m: ShellModel,
    ds: Seq<SeedDivergenceModel>,
    i: int,
)
    requires
        0 <= i < m.threads.len(),
    ensures
        ({
            let was = m.threads[i].comments;
            let now = m.all_flagged(ds, ds.len() as int).threads[i].comments;
            &&& was.len() <= now.len()
            &&& now.take(was.len() as int) == was
            &&& lists::picks(
                flags(now, was.len() as int),
                2 * ds.len() as int,
                |h: int| first_titled(m.threads, side(ds, h), i),
                |h: int| Some((h / 2) as usize),
            )
        }),
{
    let n = m.threads[i].comments.len() as int;
    let last = 2 * ds.len() as int;
    let out = |h: int| flags(half_flagged(m, ds, h).threads[i].comments, n);
    let pick = |h: int| first_titled(m.threads, side(ds, h), i);
    let make = |h: int| Some((h / 2) as usize);
    assert(half_flagged(m, ds, 0) == m);
    assert(out(0) =~= Seq::<Option<usize>>::empty());
    assert forall|h: int| 0 <= h < last implies #[trigger] lists::picks_next(
        out,
        h,
        pick,
        make,
    ) by {
        lemma_flag_step(m, ds, h, i);
    }
    lists::lemma_picks(out, last, pick, make);
    lemma_half_flagged_keeps(m, ds, last);
    assert(last % 2 == 0 && last / 2 == ds.len());
}

proof fn lemma_seeding_keeps(m: ShellModel, comments: Seq<SeedCommentModel>, n: int)
    requires
        0 <= n <= comments.len(),
    ensures
        ({
            let after = m.all_seeded(comments, n);
            after == ShellModel { threads: after.threads, next_id: after.next_id, ..m }
        }),
    decreases n,
{
    if n > 0 {
        lemma_seeding_keeps(m, comments, n - 1);
    }
}

proof fn lemma_flagging_keeps(m: ShellModel, ds: Seq<SeedDivergenceModel>, n: int)
    requires
        0 <= n <= ds.len(),
    ensures
        ({
            let after = m.all_flagged(ds, n);
            after == ShellModel { threads: after.threads, next_id: after.next_id, ..m }
        }),
    decreases n,
{
    if n > 0 {
        lemma_flagging_keeps(m, ds, n - 1);
    }
}

/// The shell opens on a thread, with the composer empty and pointed nowhere, no list
/// open, nothing turned down or scheduled, no demo, and not noticing things.
pub proof fn the_shell_opens_quietly(i: int)
    ensures
        ({
            let m = ShellModel::opened();
            &&& m.target is None
            &&& m.composer.content.len() == 0
            &&& m.composer.start == 0 && m.composer.end == 0
            &&& m.composer.marked is None
            &&& m.composer.placeholder == opening::PLACEHOLDER@
            &&& m.forwarding == Forwarding::Idle
            &&& m.view == Pane::Thread
            &&& m.proactive == Proactive::Off
            &&& m.dismissed.len() == 0
            &&& m.auto_scheduled.len() == 0
            &&& m.put_back.len() == 0
            &&& m.demo.len() == 0
            &&& !m.picker_dismissed
            &&& m.mention_sel == 0
            &&& first_titled(opening::fresh_of(seed::every_project()), seed::LABELS@, i)
                ==> m.active == i as usize
        }),
{
    let m = ShellModel::blank();
    let comments = seed::every_comment();
    lemma_seeding_keeps(m, comments, comments.len() as int);
    let seeded = m.all_seeded(comments, comments.len() as int);
    lemma_flagging_keeps(
        seeded,
        seed::every_divergence(),
        seed::every_divergence().len() as int,
    );
    lemma_first_titled(opening::fresh_of(seed::every_project()), seed::LABELS@, i);
}

} // verus!
