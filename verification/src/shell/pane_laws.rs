//! What the panes promise: everything that belongs on the screen is on it, once,
//! where one looks for it.

use vstd::prelude::*;

use crate::lists;
use crate::model::anchor::Resolution;
use crate::model::comment::Delivery;
use crate::seed;
use crate::seed::Status;
use crate::shell::cards;
use crate::shell::panes;
use crate::shell::panes::{ForwardRow, Item, SidebarRowModel, Tint};
use crate::shell::signals;
use crate::shell::state::{Proactive, ShellModel};
use crate::shell::threads;
use crate::shell::threads::{ProvenanceModel, Target, ThreadUiModel, UiCommentModel};
use crate::text;

verus! {

/// Whether a comment is shown: all are, but the workspace's own flags while it is not
/// noticing things.
pub open spec fn shown(mode: Proactive, c: UiCommentModel) -> bool {
    mode == Proactive::Off ==> c.divergence is None
}

/// Whether a comment stands on line `i` of the document at `path`.
pub open spec fn stands_on(c: UiCommentModel, path: Seq<char>, i: int) -> bool {
    &&& c.anchor.file == path
    &&& match c.resolved {
        Resolution::Exact { lines } => lines.start <= i < lines.end,
        Resolution::Shifted { lines, .. } => lines.start <= i < lines.end,
        Resolution::Orphaned => false,
    }
}

/// Whether `items` is the cards of the comments at the indices for which `p` holds.
pub open spec fn shows_cards(
    items: Seq<Item>,
    comments: Seq<UiCommentModel>,
    p: spec_fn(UiCommentModel) -> bool,
) -> bool {
    lists::picks(
        items,
        comments.len() as int,
        |k: int| p(comments[k]),
        |k: int| Item::Card(k as usize),
    )
}

proof fn lemma_shows_cards(
    comments: Seq<UiCommentModel>,
    q: spec_fn(UiCommentModel) -> bool,
    p: spec_fn(UiCommentModel) -> bool,
)
    requires
        forall|c: UiCommentModel| #[trigger] q(c) == p(c),
    ensures
        shows_cards(panes::cards_where(comments, q, comments.len() as int), comments, p),
{
    let n = comments.len() as int;
    let out = |k: int| panes::cards_where(comments, q, k);
    let pick = |k: int| p(comments[k]);
    let make = |k: int| Item::Card(k as usize);
    assert forall|k: int| 0 <= k < n implies #[trigger] lists::picks_next(
        out,
        k,
        pick,
        make,
    ) by {
        assert(q(comments[k]) == p(comments[k]));
    }
    lists::lemma_picks(out, n, pick, make);
}

// ------------------------------------------------------------ conversation --

/// What stands at block `i`: the block, the composer if it was pointed there, and the
/// cards on it.
pub open spec fn at_block(m: ShellModel, i: int, on_it: Seq<Item>) -> Seq<Item> {
    let composing = m.target == Some(Target::Prose(i as usize));
    let commented = exists|k: int|
        0 <= k < m.current().comments.len() && shown(
            m.proactive,
            #[trigger] m.current().comments[k],
        ) && stands_on(m.current().comments[k], m.current().prose_path(), i);
    seq![Item::Block { index: i as usize, commented, composing }] + (if composing {
        seq![Item::Composer]
    } else {
        Seq::empty()
    }) + on_it
}

/// Whether `items` reads as the conversation should, with the cards given.
pub open spec fn reads(
    m: ShellModel,
    items: Seq<Item>,
    on_blocks: Seq<Seq<Item>>,
    on_diff: Seq<Item>,
    orphans: Seq<Item>,
) -> bool {
    let thread = m.current();
    &&& on_blocks.len() == thread.seed.blocks.len()
    &&& forall|i: int|
        0 <= i < on_blocks.len() ==> shows_cards(
            #[trigger] on_blocks[i],
            thread.comments,
            |c: UiCommentModel| shown(m.proactive, c) && stands_on(c, thread.prose_path(), i),
        )
    &&& shows_cards(
        on_diff,
        thread.comments,
        |c: UiCommentModel|
            shown(m.proactive, c) && c.anchor.file == thread.seed.diff_dir + thread.seed.diff_file
                && (c.resolved is Exact || c.resolved is Shifted),
    )
    &&& shows_cards(
        orphans,
        thread.comments,
        |c: UiCommentModel| shown(m.proactive, c) && c.resolved == Resolution::Orphaned,
    )
    &&& items == (if thread.seed.branched_from is Some {
        seq![Item::Branched]
    } else {
        Seq::empty()
    }) + (if thread.seed.blocks.len() == 0 {
        seq![Item::NoTranscript]
    } else {
        Seq::empty()
    }) + Seq::new(on_blocks.len(), |i: int| at_block(m, i, on_blocks[i])).flatten() + on_diff
        + orphans + Seq::new(thread.replies.len(), |k: int| Item::Reply(k as usize)) + (
    if thread.sent.len() > 0 {
        seq![Item::Receipts]
    } else {
        Seq::empty()
    })
}

proof fn lemma_on_line(m: ShellModel, path: Seq<char>, i: usize)
    requires
        i <= u32::MAX,
    ensures
        shows_cards(
            m.cards_on(path, i),
            m.current().comments,
            |c: UiCommentModel| shown(m.proactive, c) && stands_on(c, path, i as int),
        ),
        m.cards_on(path, i).len() > 0 <==> exists|k: int|
            0 <= k < m.current().comments.len() && shown(
                m.proactive,
                #[trigger] m.current().comments[k],
            ) && stands_on(m.current().comments[k], path, i as int),
{
    let comments = m.current().comments;
    let q = |c: UiCommentModel| panes::on_line(m.proactive, path, i, c);
    let p = |c: UiCommentModel| shown(m.proactive, c) && stands_on(c, path, i as int);
    lemma_shows_cards(comments, q, p);
    let pick = |k: int| p(comments[k]);
    lists::lemma_picked_is_made(
        m.cards_on(path, i),
        comments.len() as int,
        pick,
        |k: int| Item::Card(k as usize),
        Item::Composer,
    );
    if exists|k: int| 0 <= k < comments.len() && #[trigger] pick(k) {
        let k = choose|k: int| 0 <= k < comments.len() && #[trigger] pick(k);
        assert(p(comments[k]));
    }
    if exists|k: int|
        0 <= k < comments.len() && shown(m.proactive, #[trigger] comments[k]) && stands_on(
            comments[k],
            path,
            i as int,
        ) {
        let k = choose|k: int|
            0 <= k < comments.len() && shown(m.proactive, #[trigger] comments[k]) && stands_on(
                comments[k],
                path,
                i as int,
            );
        assert(pick(k));
    }
}

proof fn lemma_transcript(m: ShellModel, n: int)
    requires
        0 <= n <= u32::MAX,
    ensures
        m.transcript(n) == Seq::new(
            n as nat,
            |i: int| at_block(m, i, m.cards_on(m.current().prose_path(), i as usize)),
        ).flatten(),
    decreases n,
{
    let parts = Seq::new(
        n as nat,
        |i: int| at_block(m, i, m.cards_on(m.current().prose_path(), i as usize)),
    );
    if n == 0 {
        lists::lemma_flattened(parts, Seq::<Item>::empty());
        assert(parts =~= Seq::<Seq<Item>>::empty());
    } else {
        lemma_transcript(m, n - 1);
        let before = Seq::new(
            (n - 1) as nat,
            |i: int| at_block(m, i, m.cards_on(m.current().prose_path(), i as usize)),
        );
        let last = parts.last();
        assert(parts =~= before.push(last));
        lists::lemma_flattened(before, last);
        lemma_on_line(m, m.current().prose_path(), (n - 1) as usize);
        assert(last =~= m.block_items((n - 1) as usize));
    }
}

/// The conversation, from top to bottom: where the thread was branched from; every
/// block, the composer where it was pointed, and the cards that stand on the block;
/// the cards of every comment that has a place in the diff, whether it was found where
/// it was or by its surroundings; those of every orphan; every reply; and what was
/// sent elsewhere. Nothing twice within a group, and nothing else.
pub proof fn the_conversation_reads_from_top_to_bottom(m: ShellModel)
    requires
        m.current().seed.blocks.len() <= u32::MAX,
    ensures
        exists|on_blocks: Seq<Seq<Item>>, on_diff: Seq<Item>, orphans: Seq<Item>|
            #[trigger] reads(m, m.conversation(), on_blocks, on_diff, orphans),
{
    let thread = m.current();
    let path = thread.prose_path();
    let n = thread.seed.blocks.len();
    let on_blocks = Seq::new(n, |i: int| m.cards_on(path, i as usize));
    let on_diff = m.cards(|c: UiCommentModel| m.on_diff(c));
    let orphans = m.cards(|c: UiCommentModel| m.astray(c));
    assert forall|i: int| 0 <= i < on_blocks.len() implies shows_cards(
        #[trigger] on_blocks[i],
        thread.comments,
        |c: UiCommentModel| shown(m.proactive, c) && stands_on(c, thread.prose_path(), i),
    ) by {
        lemma_on_line(m, path, i as usize);
    }
    lemma_shows_cards(
        thread.comments,
        |c: UiCommentModel| m.on_diff(c),
        |c: UiCommentModel|
            shown(m.proactive, c) && c.anchor.file == thread.seed.diff_dir + thread.seed.diff_file
                && (c.resolved is Exact || c.resolved is Shifted),
    );
    lemma_shows_cards(
        thread.comments,
        |c: UiCommentModel| m.astray(c),
        |c: UiCommentModel| shown(m.proactive, c) && c.resolved == Resolution::Orphaned,
    );
    lemma_transcript(m, n as int);
    assert(Seq::new(n, |i: int| at_block(m, i, on_blocks[i])) =~= Seq::new(
        n,
        |i: int| at_block(m, i, m.cards_on(path, i as usize)),
    ));
    assert(reads(m, m.conversation(), on_blocks, on_diff, orphans));
}

/// Every comment of the thread that is shown and has a place in its diff, found where
/// it was or by its surroundings, has its card in the conversation.
pub proof fn every_comment_on_the_diff_has_its_card(m: ShellModel, k: usize)
    requires
        k < m.current().comments.len(),
        shown(m.proactive, m.current().comments[k as int]),
        m.current().comments[k as int].anchor.file == m.current().seed.diff_dir
            + m.current().seed.diff_file,
        m.current().comments[k as int].resolved is Exact
            || m.current().comments[k as int].resolved is Shifted,
    ensures
        m.conversation().contains(Item::Card(k)),
{
    let thread = m.current();
    let comments = thread.comments;
    let p = |c: UiCommentModel| m.on_diff(c);
    lemma_shows_cards(comments, p, p);
    let on_diff = m.cards(p);
    let pick = |i: int| p(comments[i]);
    assert(pick(k as int));
    lists::lemma_picked_is_made(
        on_diff,
        comments.len() as int,
        pick,
        |i: int| Item::Card(i as usize),
        Item::Card(k),
    );
    let j = choose|j: int| 0 <= j < on_diff.len() && on_diff[j] == Item::Card(k);
    let head = (if thread.seed.branched_from is Some {
        seq![Item::Branched]
    } else {
        Seq::empty()
    }) + (if thread.seed.blocks.len() == 0 {
        seq![Item::NoTranscript]
    } else {
        Seq::empty()
    }) + m.transcript(thread.seed.blocks.len() as int);
    assert(m.conversation()[head.len() + j] == Item::Card(k));
}

// ------------------------------------------------------------------ review --

/// The diff pane has a row for each line of the diff, in order. A line is painted for
/// the run being commented on, else for the comments that stand on it, else for what
/// it did; and the composer follows the last line of the run.
pub proof fn the_diff_is_painted_line_by_line(m: ShellModel, i: int)
    requires
        m.current().seed.diff_lines.len() <= u32::MAX,
        0 <= i < m.current().seed.diff_lines.len(),
    ensures
        ({
            let row = m.review()[i];
            let (first, last) = match m.target {
                Some(Target::Diff(a, b)) => (a as int, b as int),
                _ => (-1, -1),
            };
            let composing = first <= i <= last;
            let commented = exists|k: int|
                0 <= k < m.current().comments.len() && shown(
                    m.proactive,
                    #[trigger] m.current().comments[k],
                ) && stands_on(
                    m.current().comments[k],
                    m.current().seed.diff_dir + m.current().seed.diff_file,
                    i,
                );
            let change = m.current().seed.diff_lines[i].1;
            &&& m.review().len() == m.current().seed.diff_lines.len()
            &&& row.index == i
            &&& row.tint == Tint::Composing <==> composing
            &&& row.tint == Tint::Commented <==> !composing && commented
            &&& row.tint == Tint::Added <==> !composing && !commented && change == Some(true)
            &&& row.tint == Tint::Removed <==> !composing && !commented && change == Some(false)
            &&& row.tint == Tint::Plain <==> !composing && !commented && change is None
            &&& row.composer <==> i == last
        }),
{
    lemma_on_line(m, m.current().diff_path(), i as usize);
}

// ---------------------------------------------------------------- turn bar --

/// As many comments wait as there are forwarded ones in the thread's queue.
pub proof fn what_waits_is_forwarded_and_queued(comments: Seq<UiCommentModel>)
    ensures
        ({
            let waiting = Set::new(
                |k: int|
                    0 <= k < comments.len() && comments[k].delivery == Delivery::Queued
                        && comments[k].origin != ProvenanceModel::Local,
            );
            waiting.finite() && lists::kept(
                comments,
                |c: UiCommentModel| panes::waits(c),
            ).len() == waiting.len()
        }),
{
    let p = |c: UiCommentModel| panes::waits(c);
    lists::keeping_counts_the_indices(comments, p);
    assert(Set::new(
        |k: int|
            0 <= k < comments.len() && comments[k].delivery == Delivery::Queued
                && comments[k].origin != ProvenanceModel::Local,
    ) =~= Set::new(|k: int| 0 <= k < comments.len() && p(comments[k])));
}

/// What waits is counted in words, one comment in the singular.
pub proof fn waiting_is_counted_in_words(queued: nat)
    ensures
        queued == 1 ==> panes::waiting_line(queued) == text::decimal(1)
            + " forwarded comment waiting"@,
        queued != 1 ==> panes::waiting_line(queued) == text::decimal(queued)
            + " forwarded comments waiting"@,
{
    reveal_strlit(" forwarded comment");
    reveal_strlit(" forwarded comment waiting");
    reveal_strlit(" forwarded comments waiting");
    reveal_strlit(" waiting");
    reveal_strlit("s");
    reveal_strlit("");
    let d = text::decimal(queued);
    assert(d + " forwarded comment"@ + ""@ + " waiting"@ =~= d + " forwarded comment waiting"@);
    assert(d + " forwarded comment"@ + "s"@ + " waiting"@ =~= d + " forwarded comments waiting"@);
}

// ----------------------------------------------------------------- forward --

/// What a thread's dot says: green while its agent works, amber where the thread
/// conflicts, grey otherwise.
pub open spec fn dot(thread: ThreadUiModel) -> u32 {
    match (thread.agent_busy, thread.seed.status) {
        (true, _) => 0x4A9E5C,
        (false, Status::Conflicting) => 0xE0A030,
        (false, _) => 0x555555,
    }
}

/// A snippet can go to every thread but the one it comes from, and a thread that
/// changed the same file is marked.
pub proof fn a_snippet_can_go_anywhere_else(m: ShellModel)
    requires
        m.threads.len() <= usize::MAX,
    ensures
        lists::picks(
            m.destinations(m.threads.len() as int),
            m.threads.len() as int,
            |i: int| i != m.active,
            |i: int|
                ForwardRow {
                    index: i as usize,
                    dot: dot(m.threads[i]),
                    same_file: m.threads[i].seed.diff_lines.len() != 0
                        && m.threads[i].seed.diff_file == m.current().seed.diff_file,
                },
        ),
{
    let n = m.threads.len() as int;
    let out = |k: int| m.destinations(k);
    let pick = |i: int| i != m.active;
    let make = |i: int|
        ForwardRow {
            index: i as usize,
            dot: dot(m.threads[i]),
            same_file: m.threads[i].seed.diff_lines.len() != 0 && m.threads[i].seed.diff_file
                == m.current().seed.diff_file,
        };
    assert forall|k: int| 0 <= k < n implies #[trigger] lists::picks_next(
        out,
        k,
        pick,
        make,
    ) by {}
    lists::lemma_picks(out, n, pick, make);
}

// ------------------------------------------------------------------- inbox --

/// Whether `found` is the comments at the indices that are shown and name whoever is
/// at the window, thread by thread.
pub open spec fn inbox_of(
    found: Seq<(usize, UiCommentModel)>,
    mode: Proactive,
    threads: Seq<ThreadUiModel>,
    parts: Seq<Seq<(usize, UiCommentModel)>>,
) -> bool {
    &&& found == parts.flatten()
    &&& parts.len() == threads.len()
    &&& forall|i: int|
        0 <= i < parts.len() ==> lists::picks(
            #[trigger] parts[i],
            threads[i].comments.len() as int,
            |k: int|
                shown(mode, threads[i].comments[k]) && threads[i].comments[k].mentions.contains(
                    seed::ME,
                ),
            |k: int| (i as usize, threads[i].comments[k]),
        )
}

proof fn lemma_inbox(mode: Proactive, threads: Seq<ThreadUiModel>, n: int)
    requires
        0 <= n <= threads.len(),
    ensures
        panes::mentions_of_me(mode, threads, n) == Seq::new(
            n as nat,
            |i: int|
                panes::mentions_in(
                    mode,
                    i as usize,
                    threads[i].comments,
                    threads[i].comments.len() as int,
                ),
        ).flatten(),
    decreases n,
{
    let parts = Seq::new(
        n as nat,
        |i: int|
            panes::mentions_in(
                mode,
                i as usize,
                threads[i].comments,
                threads[i].comments.len() as int,
            ),
    );
    if n == 0 {
        lists::lemma_flattened(parts, Seq::<(usize, UiCommentModel)>::empty());
        assert(parts =~= Seq::<Seq<(usize, UiCommentModel)>>::empty());
    } else {
        lemma_inbox(mode, threads, n - 1);
        let before = Seq::new(
            (n - 1) as nat,
            |i: int|
                panes::mentions_in(
                    mode,
                    i as usize,
                    threads[i].comments,
                    threads[i].comments.len() as int,
                ),
        );
        assert(parts =~= before.push(parts.last()));
        lists::lemma_flattened(before, parts.last());
    }
}

/// The inbox holds each comment that is shown and names you, once, thread by thread
/// and in each thread in the order they were left.
pub proof fn the_inbox_is_in_order(mode: Proactive, threads: Seq<ThreadUiModel>)
    ensures
        exists|parts: Seq<Seq<(usize, UiCommentModel)>>|
            #[trigger] inbox_of(
                panes::mentions_of_me(mode, threads, threads.len() as int),
                mode,
                threads,
                parts,
            ),
{
    let n = threads.len() as int;
    lemma_inbox(mode, threads, n);
    let parts = Seq::new(
        n as nat,
        |i: int|
            panes::mentions_in(
                mode,
                i as usize,
                threads[i].comments,
                threads[i].comments.len() as int,
            ),
    );
    assert forall|i: int| 0 <= i < parts.len() implies lists::picks(
        #[trigger] parts[i],
        threads[i].comments.len() as int,
        |k: int|
            shown(mode, threads[i].comments[k]) && threads[i].comments[k].mentions.contains(
                seed::ME,
            ),
        |k: int| (i as usize, threads[i].comments[k]),
    ) by {
        let comments = threads[i].comments;
        let out = |k: int| panes::mentions_in(mode, i as usize, comments, k);
        let pick = |k: int|
            shown(mode, threads[i].comments[k]) && threads[i].comments[k].mentions.contains(
                seed::ME,
            );
        let make = |k: int| (i as usize, threads[i].comments[k]);
        assert forall|k: int| 0 <= k < comments.len() implies #[trigger] lists::picks_next(
            out,
            k,
            pick,
            make,
        ) by {}
        lists::lemma_picks(out, comments.len() as int, pick, make);
    }
    assert(inbox_of(panes::mentions_of_me(mode, threads, n), mode, threads, parts));
}

// ----------------------------------------------------------------- sidebar --

/// The sidebar's row for thread `i`: whether it is the one looked at, its dot, how
/// many of its comments are shown, whether one of those names whoever is at the
/// window, and whether there is something unread.
pub open spec fn row(m: ShellModel, i: int) -> SidebarRowModel {
    let thread = m.threads[i];
    SidebarRowModel::Thread {
        index: i as usize,
        active: i == m.active,
        dot: dot(thread),
        count: Set::new(
            |k: int| 0 <= k < thread.comments.len() && shown(m.proactive, thread.comments[k]),
        ).len() as usize,
        mentions_me: exists|k: int|
            0 <= k < thread.comments.len() && shown(m.proactive, #[trigger] thread.comments[k])
                && thread.comments[k].mentions.contains(seed::ME),
        unread: thread.unread,
    }
}

/// Whether `rows` is the project's heading and the rows of its threads.
pub open spec fn project_rows(m: ShellModel, name: Seq<char>, rows: Seq<SidebarRowModel>) -> bool {
    &&& rows.len() > 0
    &&& rows[0] == SidebarRowModel::Project(name)
    &&& lists::picks(
        rows.skip(1),
        m.threads.len() as int,
        |i: int| m.threads[i].project == name,
        |i: int| row(m, i),
    )
}

/// Whether the sidebar is the given parts, one for each project.
pub open spec fn sidebar_of(m: ShellModel, g: int, parts: Seq<Seq<SidebarRowModel>>) -> bool {
    &&& m.sidebar(seed::every_project(), g) == parts.flatten()
    &&& parts.len() == g
    &&& forall|h: int|
        0 <= h < parts.len() ==> project_rows(
            m,
            seed::every_project()[h].name,
            #[trigger] parts[h],
        )
}

proof fn lemma_thread_row(m: ShellModel, i: int)
    ensures
        m.thread_row(i) == row(m, i),
{
    let comments = m.threads[i].comments;
    let p = |c: UiCommentModel| cards::visible_in(m.proactive, c);
    lists::keeping_counts_the_indices(comments, p);
    assert(Set::new(|k: int| 0 <= k < comments.len() && p(comments[k])) =~= Set::new(
        |k: int| 0 <= k < comments.len() && shown(m.proactive, comments[k]),
    ));
    if panes::any_names_me(m.proactive, comments) {
        let k = choose|k: int|
            0 <= k < comments.len() && panes::names_me(m.proactive, #[trigger] comments[k]);
        assert(shown(m.proactive, comments[k]));
    }
    if exists|k: int|
        0 <= k < comments.len() && shown(m.proactive, #[trigger] comments[k])
            && comments[k].mentions.contains(seed::ME) {
        let k = choose|k: int|
            0 <= k < comments.len() && shown(m.proactive, #[trigger] comments[k])
                && comments[k].mentions.contains(seed::ME);
        assert(panes::names_me(m.proactive, comments[k]));
    }
}

proof fn lemma_sidebar(m: ShellModel, g: int) -> (parts: Seq<Seq<SidebarRowModel>>)
    requires
        0 <= g <= seed::every_project().len(),
    ensures
        sidebar_of(m, g, parts),
    decreases g,
{
    if g == 0 {
        let parts = Seq::<Seq<SidebarRowModel>>::empty();
        lists::lemma_flattened(parts, Seq::<SidebarRowModel>::empty());
        parts
    } else {
        let before = lemma_sidebar(m, g - 1);
        let name = seed::every_project()[g - 1].name;
        let n = m.threads.len() as int;
        let out = |k: int| m.rows_in(name, k);
        let pick = |i: int| m.threads[i].project == name;
        let make = |i: int| row(m, i);
        assert forall|k: int| 0 <= k < n implies #[trigger] lists::picks_next(
            out,
            k,
            pick,
            make,
        ) by {
            lemma_thread_row(m, k);
        }
        lists::lemma_picks(out, n, pick, make);
        let last = seq![SidebarRowModel::Project(name)] + m.rows_in(name, n);
        assert(last.skip(1) =~= m.rows_in(name, n));
        lists::lemma_flattened(before, last);
        let parts = before.push(last);
        assert(m.sidebar(seed::every_project(), g) =~= before.flatten() + last);
        assert forall|h: int| 0 <= h < parts.len() implies project_rows(
            m,
            seed::every_project()[h].name,
            #[trigger] parts[h],
        ) by {
            if h < g - 1 {
                assert(parts[h] == before[h]);
            }
        }
        parts
    }
}

/// The sidebar lists every project, also one without threads, and under each its
/// threads, in order.
pub proof fn the_sidebar_lists_every_project(m: ShellModel)
    ensures
        exists|parts: Seq<Seq<SidebarRowModel>>|
            #[trigger] sidebar_of(m, seed::every_project().len() as int, parts),
{
    let parts = lemma_sidebar(m, seed::every_project().len() as int);
    assert(sidebar_of(m, seed::every_project().len() as int, parts));
}

// ------------------------------------------------------------------- board --

/// The board is there while the workspace is noticing things. It has an entry for each
/// thing noticed, under the file's name, with each thread involved and whether the
/// agent there has been told: it has a finding about the file that is neither held nor
/// queued nor withheld.
pub proof fn the_board_says_who_was_told(m: ShellModel, g: int, j: int)
    ensures
        m.board() is None <==> m.proactive == Proactive::Off,
        m.board() matches Some(entries) ==> {
            let found = signals::observed(m.threads);
            &&& entries.len() == found.len()
            &&& 0 <= g < found.len() ==> {
                &&& entries[g].file == text::after_last(found[g].file, '/')
                &&& entries[g].rows.len() == found[g].threads.len()
                &&& 0 <= j < found[g].threads.len() ==> {
                    let to = found[g].threads[j];
                    let comments = m.threads[to as int].comments;
                    &&& entries[g].rows[j].0 == to
                    &&& entries[g].rows[j].1 <==> exists|k: int|
                        0 <= k < comments.len() && (#[trigger] comments[k]).about == Some(
                            found[g].file,
                        ) && (comments[k].delivery == Delivery::Pending
                            || comments[k].delivery is Delivered)
                }
            }
        },
{
    if m.board() is Some {
        let found = signals::observed(m.threads);
        if 0 <= g < found.len() && 0 <= j < found[g].threads.len() {
            let thread = m.threads[found[g].threads[j] as int];
            let file = found[g].file;
            if panes::told_of(thread, file) {
                let k = choose|k: int|
                    0 <= k < thread.comments.len() && (#[trigger] thread.comments[k]).is_about(
                        file,
                    ) && !cards::untold(thread.comments[k].delivery);
                assert(thread.comments[k].about == Some(file));
            }
        }
    }
}

} // verus!
