//! What a comment's card promises to say.

use vstd::prelude::*;

use crate::lists;
use crate::model::anchor::{AnchorModel, Resolution};
use crate::model::comment::Delivery;
use crate::seed;
use crate::seed::SeedActorModel;
use crate::shell::cards;
use crate::shell::cards::{Badge, Quote, ReceiptStatus, Tag, TokenKind};
use crate::shell::state::{Forwarding, ShellModel};
use crate::shell::threads;
use crate::shell::threads::{
    ProvenanceModel, SentRecordModel, Target, ThreadUiModel, UiCommentModel,
};
use crate::shell::words;
use crate::text;

verus! {

// ------------------------------------------------------------------ places --

/// Whether a resolution stands on these lines, found where they were or not.
pub open spec fn lands_on(r: Resolution, start: u32, end: u32) -> bool {
    match r {
        Resolution::Exact { lines } => lines.start == start && lines.end == end,
        Resolution::Shifted { lines, .. } => lines.start == start && lines.end == end,
        Resolution::Orphaned => false,
    }
}

/// Where a comment is, in words: an orphan by the file it came from; one in the diff by
/// the file and the numbers that its first and its last line have there; any other in
/// the transcript.
pub proof fn a_place_is_where_the_anchor_landed(
    c: UiCommentModel,
    diff_path: Seq<char>,
    diff_file: Seq<char>,
    diff_lines: Seq<(u32, Option<bool>, Seq<char>)>,
    start: u32,
    end: u32,
)
    ensures
        ({
            let place = threads::place_of(c, diff_path, diff_file, diff_lines);
            let last = if end == 0 {
                0
            } else {
                end - 1
            };
            let shown = start < diff_lines.len() && last < diff_lines.len();
            &&& c.resolved is Orphaned ==> place == words::spoken_path(c.anchor.file)
                + " (unanchored)"@
            &&& !(c.resolved is Orphaned) && c.anchor.file != diff_path ==> place == "transcript"@
            &&& lands_on(c.resolved, start, end) && c.anchor.file == diff_path && shown ==> place
                == diff_file + "  (line: "@ + text::decimal(diff_lines[start as int].0 as nat)
                + seq!['-'] + text::decimal(diff_lines[last].0 as nat) + seq![')']
            &&& lands_on(c.resolved, start, end) && c.anchor.file == diff_path && !shown ==> place
                == diff_file
        }),
{
    let last = if end == 0 {
        0
    } else {
        end - 1
    };
    if lands_on(c.resolved, start, end) && c.anchor.file == diff_path && start < diff_lines.len()
        && last < diff_lines.len() {
        let a = text::decimal(diff_lines[start as int].0 as nat);
        let b = text::decimal(diff_lines[last].0 as nat);
        assert(diff_file + "  (line: "@ + a.push('-') + b.push(')') =~= diff_file + "  (line: "@
            + a + seq!['-'] + b + seq![')']);
    }
}

/// An anchor lands in a thread's diff if that is where it is from and something there
/// matches; else in its transcript if it is from there; a thread's diff goes by its
/// directory and file, its transcript by the thread whose transcript it is.
pub proof fn an_anchor_lands_in_the_diff_or_the_transcript(
    thread: ThreadUiModel,
    anchor: AnchorModel,
)
    requires
        thread.seed.diff_dir + thread.seed.diff_file != "thread://"@ + seed::root(thread.seed.title)
            + "/transcript"@,
    ensures
        anchor.file == thread.seed.diff_dir + thread.seed.diff_file ==> thread.resolved_in(anchor)
            == anchor.resolved(thread.diff_snapshot()),
        anchor.file == "thread://"@ + seed::root(thread.seed.title) + "/transcript"@
            ==> thread.resolved_in(anchor) == anchor.resolved(thread.prose_snapshot()),
        thread.diff_snapshot().file == thread.seed.diff_dir + thread.seed.diff_file,
        thread.prose_snapshot().file == "thread://"@ + seed::root(thread.seed.title)
            + "/transcript"@,
{
}

/// Whether a text is one line.
pub open spec fn one_line(s: Seq<char>) -> bool {
    !s.contains('\n') && (s.len() > 0 ==> s.last() != '\r')
}

proof fn lemma_lines_come_back(parts: Seq<Seq<char>>)
    requires
        forall|i: int| 0 <= i < parts.len() ==> one_line(#[trigger] parts[i]),
        parts.len() > 0 ==> parts.last().len() > 0,
    ensures
        text::lines(text::joined(parts, seq!['\n'])) == parts,
    decreases parts.len(),
{
    let sep = seq!['\n'];
    if parts.len() == 0 {
        text::a_newline_ends_a_line(Seq::<char>::empty(), Seq::<char>::empty());
        assert(parts =~= Seq::<Seq<char>>::empty());
    } else {
        let first = parts[0];
        assert(one_line(first));
        text::joining_puts_the_separator_between(seq![first], parts.skip(1), sep, first);
        if parts.len() == 1 {
            assert(parts =~= seq![first]);
            text::a_newline_ends_a_line(first, first);
        } else {
            let rest = parts.skip(1);
            assert forall|i: int| 0 <= i < rest.len() implies one_line(#[trigger] rest[i]) by {
                assert(rest[i] == parts[i + 1]);
            }
            assert(rest.last() == parts.last());
            lemma_lines_come_back(rest);
            let b = text::joined(rest, sep);
            assert(parts =~= seq![first] + rest);
            assert(first + sep + b =~= first.push('\n') + b);
            text::a_newline_ends_a_line(first, b);
        }
    }
}

/// A snapshot of a thread's diff, or of its transcript, shows what their lines and
/// blocks say, one below the other.
pub proof fn snapshots_show_what_is_there(thread: ThreadUiModel)
    ensures
        thread.diff_snapshot().lines == text::lines(
            text::joined(
                Seq::new(
                    thread.seed.diff_lines.len(),
                    |i: int| thread.seed.diff_lines[i].2,
                ),
                seq!['\n'],
            ),
        ),
        thread.prose_snapshot().lines == text::lines(
            text::joined(
                Seq::new(thread.seed.blocks.len(), |i: int| thread.seed.blocks[i].text),
                seq!['\n'],
            ),
        ),
        ({
            let lines = thread.seed.diff_lines;
            (forall|i: int| 0 <= i < lines.len() ==> one_line((#[trigger] lines[i]).2)) && (
            lines.len() > 0 ==> lines[lines.len() - 1].2.len() > 0) ==> {
                &&& thread.diff_snapshot().lines.len() == lines.len()
                &&& forall|i: int|
                    0 <= i < lines.len() ==> thread.diff_snapshot().lines[i] == (
                    #[trigger] lines[i]).2
            }
        }),
        ({
            let blocks = thread.seed.blocks;
            (forall|i: int| 0 <= i < blocks.len() ==> one_line((#[trigger] blocks[i]).text)) && (
            blocks.len() > 0 ==> blocks[blocks.len() - 1].text.len() > 0) ==> {
                &&& thread.prose_snapshot().lines.len() == blocks.len()
                &&& forall|i: int|
                    0 <= i < blocks.len() ==> thread.prose_snapshot().lines[i] == (
                    #[trigger] blocks[i]).text
            }
        }),
{
    let lines = thread.seed.diff_lines;
    if (forall|i: int| 0 <= i < lines.len() ==> one_line((#[trigger] lines[i]).2)) && (lines.len()
        > 0 ==> lines[lines.len() - 1].2.len() > 0) {
        let said = threads::said(lines);
        assert forall|i: int| 0 <= i < said.len() implies one_line(#[trigger] said[i]) by {
            assert(said[i] == lines[i].2);
        }
        lemma_lines_come_back(said);
    }
    let blocks = thread.seed.blocks;
    if (forall|i: int| 0 <= i < blocks.len() ==> one_line((#[trigger] blocks[i]).text)) && (
    blocks.len() > 0 ==> blocks[blocks.len() - 1].text.len() > 0) {
        let told = threads::told(blocks);
        assert forall|i: int| 0 <= i < told.len() implies one_line(#[trigger] told[i]) by {
            assert(told[i] == blocks[i].text);
        }
        lemma_lines_come_back(told);
    }
}

/// A worktree is dirty from its first changed line to its last, both of them included.
pub proof fn a_diff_is_dirty_from_end_to_end(thread: ThreadUiModel)
    requires
        thread.seed.numbered(),
    ensures
        ({
            let lines = thread.seed.diff_lines;
            &&& lines.len() == 0 ==> thread.dirty_lines() is None
            &&& lines.len() > 0 ==> {
                &&& thread.dirty_lines() is Some
                &&& thread.dirty_lines()->0.start == lines[0].0
                &&& forall|i: int|
                    0 <= i < lines.len() ==> thread.dirty_lines()->0.start <= (
                    #[trigger] lines[i]).0 < thread.dirty_lines()->0.end
                &&& thread.dirty_lines()->0.end == lines[lines.len() - 1].0 + 1
            }
        }),
{
    let lines = thread.seed.diff_lines;
    if lines.len() > 0 {
        assert(lines[lines.len() - 1].0 < u32::MAX);
        assert forall|i: int| 0 <= i < lines.len() implies thread.dirty_lines()->0.start <= (
        #[trigger] lines[i]).0 < thread.dirty_lines()->0.end by {
            assert(lines[0].0 <= lines[i].0);
            assert(lines[i].0 <= lines[lines.len() - 1].0);
        }
    }
}

/// A comment is referred to by its thread's short name, a dash, and which one it is
/// there, counting from one.
pub proof fn a_handle_counts_the_comments(thread: ThreadUiModel)
    ensures
        thread.next_handle() == words::slug_of(thread.seed) + seq!['-'] + text::decimal(
            thread.comments.len() + 1,
        ),
{
    assert(thread.next_handle() =~= words::slug_of(thread.seed) + seq!['-'] + text::decimal(
        thread.comments.len() + 1,
    ));
}

// ------------------------------------------------------------------ tokens --

/// Each word of a comment is a token, in order. A word that names an actor by handle,
/// agents too, is that actor's; else one that names a thread by its given short name is
/// that thread's; any other is plain.
pub proof fn a_token_names_an_actor_before_a_thread(
    all: Seq<ThreadUiModel>,
    line: Seq<Seq<char>>,
    n: int,
    i: usize,
)
    requires
        0 <= n < line.len(),
        all.len() <= usize::MAX,
    ensures
        ({
            let token = cards::tokens_of(all, line)[n];
            let handle = words::handle_in(line[n]);
            let acts = |k: int|
                0 <= k < seed::everyone().len() && handle == Some(seed::everyone()[k].handle);
            let slugs = |k: int|
                0 <= k < all.len() && all[k].seed.slug.len() > 0 && handle == Some(
                    all[k].seed.slug,
                );
            &&& cards::tokens_of(all, line).len() == line.len()
            &&& token.text == line[n]
            &&& token.kind == TokenKind::Actor(i) <==> acts(i as int) && forall|k: int|
                k < i ==> !#[trigger] acts(k)
            &&& token.kind == TokenKind::Thread(i) <==> (forall|k: int| !#[trigger] acts(k))
                && slugs(i as int) && forall|k: int| k < i ==> !#[trigger] slugs(k)
            &&& token.kind == TokenKind::Plain <==> (forall|k: int| !#[trigger] acts(k)) && forall|
                k: int|
                !#[trigger] slugs(k)
        }),
{
    let named = words::handle_in(line[n]);
    let acts = |k: int|
        0 <= k < seed::everyone().len() && named == Some(seed::everyone()[k].handle);
    let slugs = |k: int|
        0 <= k < all.len() && all[k].seed.slug.len() > 0 && named == Some(all[k].seed.slug);
    if named is Some {
        let handle = named->0;
        let p = |a: SeedActorModel| a.handle == handle;
        let q = |t: ThreadUiModel| t.seed.slug.len() > 0 && t.seed.slug == handle;
        let who = seed::everyone();
        lists::a_place_is_the_first(who, p, i as int);
        lists::a_place_is_the_first(all, q, i as int);
        lists::lemma_position(who, p);
        lists::lemma_position(all, q);
        assert forall|k: int| 0 <= k < who.len() implies p(who[k]) == #[trigger] acts(k) by {}
        assert forall|k: int| 0 <= k < all.len() implies q(all[k]) == #[trigger] slugs(k) by {}
        if lists::place(who, p) is Some {
            let at = lists::place(who, p)->0;
            assert(acts(at));
            assert forall|k: int| k < at implies !#[trigger] acts(k) by {
                if 0 <= k {
                    assert(!p(who[k]));
                }
            }
        } else {
            assert forall|k: int| !#[trigger] acts(k) by {
                if 0 <= k < who.len() {
                    assert(!p(who[k]));
                }
            }
            if lists::place(all, q) is Some {
                let at = lists::place(all, q)->0;
                assert(slugs(at));
                assert forall|k: int| k < at implies !#[trigger] slugs(k) by {
                    if 0 <= k {
                        assert(!q(all[k]));
                    }
                }
            } else {
                assert forall|k: int| !#[trigger] slugs(k) by {
                    if 0 <= k < all.len() {
                        assert(!q(all[k]));
                    }
                }
            }
        }
    } else {
        assert forall|k: int| !#[trigger] acts(k) && !#[trigger] slugs(k) by {}
    }
}

// -------------------------------------------------------------------- card --

/// What a card shows, field by field.
pub proof fn a_card_tells_what_became_of_its_comment(m: ShellModel, c: UiCommentModel)
    ensures
        ({
            let card = m.card(c);
            let thread = m.current();
            &&& card.place == threads::place_of(
                c,
                thread.seed.diff_dir + thread.seed.diff_file,
                thread.seed.diff_file,
                thread.seed.diff_lines,
            )
            &&& card.badge is InPlace <==> c.resolved is Exact
            &&& card.badge is Orphaned <==> c.resolved is Orphaned
            &&& c.resolved matches Resolution::Shifted { similarity, .. } ==> card.badge
                == Badge::Reanchored(similarity)
            &&& card.tag == Tag::Held <==> c.delivery == Delivery::Proposed
            &&& card.tag == Tag::Proactive <==> c.delivery != Delivery::Proposed
                && c.divergence is Some
            &&& card.quote == Quote::Orphan <==> c.resolved is Orphaned
            &&& card.quote == Quote::Snippet <==> !(c.resolved is Orphaned) && c.body.len() == 0
            &&& card.note <==> c.body.len() != 0
            &&& !card.hollow <==> c.divergence is None && c.about is None
            &&& card.composing <==> m.target == Some(Target::Reply(c.id))
            &&& card.forwarding <==> m.forwarding == Forwarding::Comment(c.id)
            &&& card.provenance is None <==> c.origin == ProvenanceModel::Local
        }),
{
}

/// What a thread goes by where a comment from it is shown: the short name of the first
/// thread with that title, else the title itself.
pub proof fn a_thread_goes_by_its_short_name(title: Seq<char>, k: int)
    ensures
        ({
            let all = seed::every_thread();
            &&& 0 <= k < all.len() && all[k].title == title && (forall|j: int|
                0 <= j < k ==> (#[trigger] all[j]).title != title) ==> cards::origin_name(title)
                == words::slug_of(all[k])
            &&& (forall|j: int| 0 <= j < all.len() ==> (#[trigger] all[j]).title != title)
                ==> cards::origin_name(title) == title
        }),
{
    let all = seed::every_thread();
    let p = |t: seed::SeedThreadModel| t.title == title;
    lists::a_place_is_the_first(all, p, k);
    lists::lemma_position(all, p);
    if 0 <= k < all.len() && all[k].title == title && (forall|j: int|
        0 <= j < k ==> (#[trigger] all[j]).title != title) {
        lists::lemma_is_position(all, p, k);
    }
}

/// A forwarded comment says who handed it on, who wrote it and where, and that it
/// waits if it does.
pub proof fn provenance_names_everyone(
    c: UiCommentModel,
    from_title: Seq<char>,
    forwarded_by: usize,
    original_author: usize,
)
    requires
        c.origin == (ProvenanceModel::Forwarded { from_title, forwarded_by, original_author }),
    ensures
        ({
            let line = "forwarded by @"@ + seed::everyone()[forwarded_by as int].handle
                + " - originally @"@ + seed::everyone()[original_author as int].handle + " in @"@
                + cards::origin_name(from_title);
            &&& c.delivery != Delivery::Queued ==> cards::provenance_of(c) == Some(line)
            &&& c.delivery == Delivery::Queued ==> cards::provenance_of(c) == Some(
                "queued behind the current turn - "@ + line,
            )
        }),
{
    reveal_strlit("");
    let a = "forwarded by @"@;
    let b = seed::everyone()[forwarded_by as int].handle;
    let d = " - originally @"@;
    let e = seed::everyone()[original_author as int].handle;
    let f = " in @"@;
    let g = cards::origin_name(from_title);
    let q = "queued behind the current turn - "@;
    assert(""@ + a + b + d + e + f + g =~= a + b + d + e + f + g);
    assert(q + a + b + d + e + f + g =~= q + (a + b + d + e + f + g));
}

// ---------------------------------------------------------------- receipts --

/// A receipt says what the recipient holds now: nothing, if the comment is gone; that
/// the agent has it, once it is pending there or was delivered; else that the agent has
/// not been told.
pub proof fn a_receipt_follows_the_recipient(m: ShellModel, record: SentRecordModel, k: int)
    ensures
        ({
            let comments = m.threads[record.to as int].comments;
            &&& m.fate(record) == ReceiptStatus::Withdrawn <==> forall|j: int|
                0 <= j < comments.len() ==> (#[trigger] comments[j]).id != record.comment
            &&& 0 <= k < comments.len() && comments[k].id == record.comment && (forall|j: int|
                0 <= j < k ==> (#[trigger] comments[j]).id != record.comment) ==> {
                &&& m.fate(record) == ReceiptStatus::HasIt <==> comments[k].delivery
                    == Delivery::Pending || comments[k].delivery is Delivered
                &&& m.fate(record) == ReceiptStatus::NotToldYet <==> comments[k].delivery
                    == Delivery::Proposed || comments[k].delivery == Delivery::Queued
                    || comments[k].delivery == Delivery::Withheld
            }
        }),
{
    let comments = m.threads[record.to as int].comments;
    let p = |c: UiCommentModel| c.id == record.comment;
    lists::a_place_is_the_first(comments, p, k);
    lists::lemma_position(comments, p);
    if 0 <= k < comments.len() && comments[k].id == record.comment && (forall|j: int|
        0 <= j < k ==> (#[trigger] comments[j]).id != record.comment) {
        lists::lemma_is_position(comments, p, k);
    }
    if m.fate(record) == ReceiptStatus::Withdrawn {
        assert forall|j: int| 0 <= j < comments.len() implies (#[trigger] comments[j]).id
            != record.comment by {
            assert(!p(comments[j]));
        }
    }
}

} // verus!
