use delta_mock::model::comment::Delivery;
use delta_mock::seed;
use delta_mock::shell::cards::{Badge, Quote, ReceiptStatus, Tag, TokenKind};
use delta_mock::shell::panes::{Item, SidebarRow, Tint};
use delta_mock::shell::state::{Forwarding, Proactive};
use delta_mock::shell::threads::{covers, describe_where, dot_color};
use delta_mock::shell::{MentionTarget, Shell, Target};

const LABELS: usize = 2;
const RETRY: usize = 3;
const JITTER: usize = 4;
const WRAPPING: usize = 5;

#[test]
fn the_sidebar_lists_every_project_and_its_threads() {
    let shell = Shell::new();
    let rows = shell.sidebar();
    assert_eq!(rows.len(), 7 + 16);
    match rows[0] {
        SidebarRow::Project(name) => assert_eq!(name, "daniloleal.co"),
        SidebarRow::Thread { .. } => panic!("a project comes first"),
    }
    let mut indices = Vec::new();
    for row in rows {
        if let SidebarRow::Thread { index, active, dot, count, mentions_me, unread } = row {
            indices.push(index);
            let thread = &shell.threads[index];
            assert_eq!(active, index == LABELS);
            assert_eq!(dot, dot_color(thread));
            assert_eq!(unread, thread.unread);
            // The flags of the workspace are hidden while it is off.
            let shown = if index == LABELS || index == JITTER || index == WRAPPING { 1 } else { 0 };
            assert_eq!((count, mentions_me), (shown, shown == 1));
        }
    }
    assert_eq!(indices, (0..16).collect::<Vec<usize>>());
    assert_eq!(dot_color(&shell.threads[LABELS]), 0x4A9E5C);
    assert_eq!(dot_color(&shell.threads[0]), 0x555555);
}

#[test]
fn the_inbox_gathers_every_note_that_names_you() {
    let mut shell = Shell::new();
    let found: Vec<(usize, u32)> = shell.my_mentions().iter().map(|(i, c)| (*i, c.id)).collect();
    assert_eq!(found, vec![(LABELS, 1), (JITTER, 3), (WRAPPING, 2)]);
    assert_eq!(shell.place_in(LABELS, &shell.threads[LABELS].comments[0]), "transcript");
    assert_eq!(
        shell.place_in(WRAPPING, &shell.threads[WRAPPING].comments[0]),
        "comment_summary.rs  (line: 14-14)",
    );
    shell.set_mode(Proactive::Manual);
    let found: Vec<(usize, u32)> = shell.my_mentions().iter().map(|(i, c)| (*i, c.id)).collect();
    assert_eq!(found, vec![(LABELS, 1), (LABELS, 4), (RETRY, 5), (JITTER, 3), (WRAPPING, 2)]);
}

#[test]
fn the_conversation_puts_cards_under_the_block_they_are_on() {
    let mut shell = Shell::new();
    let block = |index: usize, commented: bool, composing: bool| Item::Block {
        index,
        commented,
        composing,
    };
    assert_eq!(
        shell.conversation(),
        vec![
            block(0, true, false),
            Item::Card(0),
            block(1, false, false),
            block(2, false, false),
            block(3, false, false),
            block(4, false, false),
            block(5, false, false),
            block(6, false, false),
        ],
    );
    assert_eq!(shell.branch_line(), None);
    shell.set_mode(Proactive::Manual);
    shell.begin(Target::Prose(1));
    assert_eq!(
        shell.conversation()[..5],
        [
            block(0, true, false),
            Item::Card(0),
            block(1, true, true),
            Item::Composer,
            Item::Card(1),
        ],
    );
    shell.switch_to(RETRY);
    assert_eq!(shell.conversation()[0], Item::Branched);
    assert_eq!(
        shell.branch_line().as_deref(),
        Some(
            "branched from \"Prevent Unknown Model Labels\" - shares its transcript, so anchors \
             carry across",
        ),
    );
    shell.switch_to(0);
    assert_eq!(shell.conversation(), vec![Item::NoTranscript]);
}

#[test]
fn orphans_come_after_the_cards_that_landed() {
    let mut shell = Shell::new();
    shell.begin(Target::Prose(0));
    shell.forward_selection(WRAPPING);
    let items = shell.conversation();
    assert_eq!(items[items.len() - 1], Item::Receipts);
    shell.switch_to(WRAPPING);
    let cards: Vec<Item> = shell
        .conversation()
        .into_iter()
        .filter(|i| matches!(i, Item::Card(_)))
        .collect();
    // The seeded one is on the diff, the forwarded one found nothing here.
    assert_eq!(cards, vec![Item::Card(0), Item::Card(1)]);
    let orphan = &shell.active().comments[1];
    let card = shell.card(orphan);
    assert!(matches!(card.badge, Badge::Orphaned));
    assert_eq!(card.place, "\"Prevent Unknown Model Labels\" transcript (unanchored)");
    assert_eq!(card.quote, Quote::Orphan);
    assert!(!card.note && !card.hollow && !card.composing && !card.forwarding);
    assert_eq!(
        card.provenance.as_deref(),
        Some(
            "queued behind the current turn - forwarded by @danilo-leal - originally @danilo-leal \
             in @labels",
        ),
    );
    assert_eq!(shell.turn_bar().queued, 1);
    assert_eq!(shell.turn_bar().waiting().as_deref(), Some("1 forwarded comment waiting"));
    assert_eq!(shell.turn_bar().headline(), "agent is mid-turn");
    shell.finish_turn(WRAPPING, Vec::new());
    let card = shell.card(&shell.active().comments[1]);
    assert!(card.provenance.expect("forwarded").starts_with("forwarded by @danilo-leal"));
    assert!(!shell.turn_bar().shown());
    assert_eq!(shell.turn_bar().waiting(), None);
    assert_eq!(shell.turn_bar().headline(), "waiting for the turn boundary");
}

#[test]
fn cards_say_what_they_are() {
    let mut shell = Shell::new();
    shell.set_mode(Proactive::Manual);
    let plain = shell.card(&shell.active().comments[0]);
    assert_eq!((plain.tag, plain.quote), (Tag::Plain, Quote::Nothing));
    assert!(matches!(plain.badge, Badge::InPlace));
    assert!(plain.note && !plain.hollow && plain.provenance.is_none());
    let flag = shell.card(&shell.active().comments[1]);
    assert_eq!(flag.tag, Tag::Proactive);
    assert!(flag.hollow);
    let held = shell.threads[WRAPPING].comments.last().expect("raised");
    let card = shell.card(held);
    assert_eq!(card.tag, Tag::Held);
    assert!(card.hollow);
    shell.begin(Target::Reply(1));
    shell.toggle_forward(Forwarding::Comment(1));
    let open = shell.card(&shell.active().comments[0]);
    assert!(open.composing && open.forwarding);
    assert!(!shell.can_forward());
    shell.begin(Target::Diff(8, 9));
    assert!(shell.can_forward());
    shell.forward_selection(JITTER);
    let bare = shell.threads[JITTER].comments.last().expect("it landed");
    shell.active = JITTER;
    let card = shell.card(shell.threads[JITTER].comments.last().expect("it landed"));
    assert_eq!(card.quote, Quote::Snippet);
    match card.badge {
        Badge::Reanchored(similarity) => assert_eq!(similarity.hits, similarity.total),
        other => panic!("expected Reanchored, got {other:?}"),
    }
    assert_eq!(bare.delivery, Delivery::Pending);
    assert_eq!(Quote::Snippet.label(), "sent as a snippet, no note");
    assert_eq!(Quote::Orphan.label(), "nothing here matches; quoting the original");
    assert_eq!(Quote::Nothing.label(), "");
}

#[test]
fn words_of_a_note_are_people_threads_or_plain() {
    let shell = Shell::new();
    let tokens = shell.body_tokens("see  @jitter, @mikayla and @delta or @nobody");
    let kinds: Vec<(&str, TokenKind)> = tokens.iter().map(|t| (t.text.as_str(), t.kind)).collect();
    assert_eq!(
        kinds,
        vec![
            ("see", TokenKind::Plain),
            ("@jitter,", TokenKind::Thread(JITTER)),
            ("@mikayla", TokenKind::Actor(3)),
            ("and", TokenKind::Plain),
            ("@delta", TokenKind::Actor(4)),
            ("or", TokenKind::Plain),
            ("@nobody", TokenKind::Plain),
        ],
    );
}

#[test]
fn the_diff_pane_paints_the_target_then_the_comments_then_the_change() {
    let mut shell = Shell::new();
    let rows = shell.review();
    assert_eq!(rows.len(), 33);
    assert_eq!(rows[0].tint, Tint::Plain);
    assert_eq!(rows[2].tint, Tint::Added);
    assert_eq!(rows[24].tint, Tint::Removed);
    assert!(rows.iter().all(|r| !r.composer));
    shell.begin_at_diff_line(5);
    let rows = shell.review();
    for row in &rows {
        assert_eq!(row.tint == Tint::Composing, 2 <= row.index && row.index <= 14);
        assert_eq!(row.composer, row.index == 14);
    }
    shell.switch_to(WRAPPING);
    let commented: Vec<usize> = shell
        .review()
        .iter()
        .filter(|r| r.tint == Tint::Commented)
        .map(|r| r.index)
        .collect();
    assert_eq!(commented, vec![2]);
    shell.switch_to(0);
    assert!(shell.review().is_empty());
}

#[test]
fn a_snippet_can_go_to_every_other_thread() {
    let shell = Shell::new();
    let rows = shell.forward_rows();
    assert_eq!(rows.len(), 15);
    assert!(rows.iter().all(|r| r.index != LABELS));
    let same: Vec<usize> = rows.iter().filter(|r| r.same_file).map(|r| r.index).collect();
    assert_eq!(same, vec![JITTER]);
    assert_eq!(
        shell.candidate_row(MentionTarget::Actor(3)),
        (seed::actor(3).color, "@mikayla".to_string(), "product"),
    );
    assert_eq!(
        shell.candidate_row(MentionTarget::Thread(LABELS)),
        (0x4A9E5C, "@labels".to_string(), seed::LABELS),
    );
}

#[test]
fn hints_name_who_knows_and_who_else_is_here() {
    let mut shell = Shell::new();
    assert!(shell.routing_hints().is_none());
    shell.begin(Target::Diff(2, 14));
    assert_eq!(shell.target_file_lines(), Some((seed::MODEL_CATALOG.to_string(), 79..92)));
    let hints = shell.routing_hints().expect("this range was written by someone");
    let (who, why) = hints.expert.expect("someone");
    assert_eq!(who, 1);
    assert_eq!(why, "wrote 13 of these 13 lines, across 4 commits");
    assert_eq!(
        hints.notices,
        vec!["also editing: Fix Compaction Divider Spacing Jitter (lines 58-83, turn 1)"],
    );
    shell.begin(Target::Prose(0));
    assert!(shell.target_file_lines().is_none());
    assert!(shell.routing_hints().is_none());
    let index = shell.overlap();
    assert_eq!(index.live.len(), 5);
    assert_eq!(index.history.len(), 4);
}

#[test]
fn places_are_where_the_anchor_landed() {
    let shell = Shell::new();
    let thread = &shell.threads[WRAPPING];
    let comment = &thread.comments[0];
    assert!(covers(&comment.resolved, 2) && !covers(&comment.resolved, 3));
    assert!(!covers(&comment.resolved, 1));
    assert_eq!(
        describe_where(comment, "elsewhere", thread.seed.diff_file, &thread.seed.diff_lines),
        "transcript",
    );
    assert_eq!(
        describe_where(comment, &thread.diff_path(), thread.seed.diff_file, &Vec::new()),
        "comment_summary.rs",
    );
}

#[test]
fn receipts_have_a_label_and_a_colour() {
    assert_eq!(ReceiptStatus::Withdrawn.label(), "withdrawn there");
    assert_eq!(ReceiptStatus::NotToldYet.label(), "agent not told yet");
    assert_eq!(ReceiptStatus::HasIt.label(), "agent has it");
    assert_eq!(ReceiptStatus::Withdrawn.color(), 0x777777);
    assert_eq!(ReceiptStatus::NotToldYet.color(), 0xE0A030);
    assert_eq!(ReceiptStatus::HasIt.color(), 0x4A9E5C);
}
