use delta_mock::composer::ComposerEvent;
use delta_mock::model::actor::ActorId;
use delta_mock::model::anchor::Resolution;
use delta_mock::model::comment::Delivery;
use delta_mock::model::thread::ThreadId;
use delta_mock::model::transport::{Envelope, SendError, ThreadTransport};
use delta_mock::seed;
use delta_mock::shell::cards::ReceiptStatus;
use delta_mock::shell::state::{Forwarding, Pane, Proactive};
use delta_mock::shell::{MentionTarget, Provenance, Shell, Target};

fn index(shell: &Shell, title: &str) -> usize {
    shell.threads.iter().position(|t| t.seed.title == title).expect("seeded")
}

/// A shell on the jitter thread, whose agent is idle.
fn on_jitter() -> Shell {
    let mut shell = Shell::new();
    let i = index(&shell, seed::JITTER);
    shell.switch_to(i);
    shell
}

fn type_in(shell: &mut Shell, text: &str) {
    let event = shell.composer.replace_text_in_range(None, text);
    assert_eq!(event, ComposerEvent::Changed);
    assert!(shell.on_composer_event(event).is_none());
}

#[test]
fn the_shell_opens_with_what_was_already_there() {
    let shell = Shell::new();
    assert_eq!(shell.threads.len(), 16);
    assert_eq!(shell.active().seed.title, seed::LABELS);
    assert_eq!(shell.next_id, 5);
    assert_eq!(shell.view, Pane::Thread);
    assert_eq!(shell.proactive, Proactive::Off);
    let labels = shell.active();
    assert_eq!(labels.comments.len(), 2);
    assert_eq!(labels.comments[0].handle, "labels-1");
    assert_eq!(labels.comments[0].author, 1);
    assert_eq!(labels.comments[0].mentions, vec![0]);
    // What was there already arrived by the rule of a forward: it waits where the
    // agent is mid-turn.
    assert_eq!(labels.comments[0].delivery, Delivery::Queued);
    assert_eq!(labels.comments[0].resolved, Resolution::Exact { lines: 0..1 });
    let flag = &labels.comments[1];
    assert_eq!(flag.divergence, Some(0));
    assert_eq!(flag.delivery, Delivery::Withheld);
    assert_eq!(flag.author, 4);
    assert_eq!(
        flag.body,
        "@danilo-leal both threads are deciding where an unresolvable model key gets its display \
         name. Here we format it at the call site, in ModelSelector::render; \"Prevent Unknown \
         Model Labels (registry retry)\" will resolve it in the registry, with one central \
         fallback.                      Nothing overlaps, so this merges cleanly and ships twice.",
    );
    let retry = &shell.threads[index(&shell, seed::RETRY)];
    assert_eq!(retry.comments.len(), 1);
    assert_eq!(retry.comments[0].handle, "registry-retry-1");
    let wrapping = &shell.threads[index(&shell, seed::WRAPPING)];
    assert_eq!(wrapping.comments[0].resolved, Resolution::Exact { lines: 2..3 });
    assert_eq!(wrapping.comments[0].delivery, Delivery::Queued);
    assert!(wrapping.unread && wrapping.agent_busy);
    let jitter = &shell.threads[index(&shell, seed::JITTER)];
    assert_eq!(jitter.comments[0].delivery, Delivery::Pending);
    assert!(!jitter.agent_busy);
}

#[test]
fn turns_under_way_end_on_a_stagger() {
    let shell = Shell::new();
    let turns = shell.turns_under_way();
    let due: Vec<(usize, u64)> = turns.iter().map(|t| (t.thread, t.millis)).collect();
    assert_eq!(due, vec![(2, 280_000), (3, 240_000), (5, 280_000), (6, 240_000)]);
    assert!(turns.iter().all(|t| t.replies.is_empty()));
}

#[test]
fn committing_in_an_idle_thread_starts_a_turn() {
    let mut shell = on_jitter();
    shell.begin(Target::Prose(1));
    type_in(&mut shell, "  @mikayla why six?  ");
    let turn = shell.on_composer_event(ComposerEvent::Submit).expect("a turn starts");
    let jitter = shell.active;
    assert_eq!((turn.thread, turn.millis), (jitter, 2_600));
    let thread = shell.active();
    // The comment that was already pending ships with it.
    assert_eq!(thread.comments.len(), 2);
    assert!(thread.comments.iter().all(|c| c.delivery == Delivery::Delivered { turn: 1 }));
    assert_eq!(thread.comments[1].body, "@mikayla why six?");
    assert_eq!(thread.comments[1].mentions, vec![3]);
    assert_eq!(thread.comments[1].handle, "jitter-2");
    assert_eq!(thread.comments[1].id, 6);
    assert!(thread.comments[1].anchor.auto_selected);
    assert_eq!(thread.comments[1].resolved, Resolution::Exact { lines: 1..2 });
    assert_eq!(thread.turn, 2);
    assert!(thread.agent_busy);
    assert!(shell.composer.is_empty());
    assert_eq!(shell.target, None);
    assert_eq!(turn.replies.len(), 2);
    assert_eq!(turn.replies[0].quote, seed::HEADS_UP);
    assert_eq!(turn.replies[1].in_reply_to, 6);
    assert!(turn.replies[1].body.starts_with("Because"));
    assert!(turn.replies[1].body.contains("what transcript is guarding"));
    // The replies land when the turn ends.
    assert!(thread.replies.is_empty());
    shell.finish_turn(turn.thread, turn.replies);
    assert_eq!(shell.active().replies.len(), 2);
    assert!(!shell.active().agent_busy);
    assert!(!shell.active().unread);
}

#[test]
fn committing_mid_turn_waits() {
    let mut shell = Shell::new();
    shell.begin(Target::Diff(2, 6));
    type_in(&mut shell, "drop these");
    assert!(shell.on_composer_event(ComposerEvent::Submit).is_none());
    let thread = shell.active();
    assert_eq!(thread.comments.len(), 3);
    assert_eq!(thread.comments[2].delivery, Delivery::Pending);
    assert_eq!(thread.comments[0].delivery, Delivery::Queued);
    assert_eq!(thread.turn, 1);
    let turn = shell.send_batch();
    assert_eq!(turn.replies.len(), 1);
    assert_eq!(shell.active().comments[0].delivery, Delivery::Queued);
    assert!(turn.replies[0]
        .body
        .starts_with("Done — dropped that from model_catalog.rs  (line: 79-83)."));
}

#[test]
fn nothing_is_committed_without_a_note_or_a_target() {
    let mut shell = on_jitter();
    assert!(shell.commit().is_none());
    type_in(&mut shell, "a note");
    assert!(shell.commit().is_none());
    assert_eq!(shell.composer.text(), "a note");
    shell.begin(Target::Prose(0));
    assert!(shell.composer.is_empty());
    type_in(&mut shell, "   ");
    assert!(shell.commit().is_none());
    assert_eq!(shell.active().comments.len(), 1);
    assert_eq!(shell.target, Some(Target::Prose(0)));
}

#[test]
fn a_reply_joins_the_comment_it_answers() {
    let mut shell = on_jitter();
    let id = shell.active().comments[0].id;
    for (n, body) in ["yes @as-cii", "no"].iter().enumerate() {
        shell.begin(Target::Reply(id));
        type_in(&mut shell, body);
        assert!(shell.commit().is_none());
        let reply = &shell.active().comments[0].replies[n];
        assert_eq!(reply.body, *body);
        assert_eq!(reply.handle, format!("jitter-1.{}", n + 1));
        assert_eq!(reply.author, seed::ME);
    }
    assert_eq!(shell.active().comments[0].replies[0].mentions, vec![2]);
    assert_eq!(shell.active().comments.len(), 1);
    assert_eq!(shell.active().comments[0].delivery, Delivery::Pending);
    assert!(!shell.active().agent_busy);
    // Answering something that is gone says nothing.
    shell.begin(Target::Reply(999));
    type_in(&mut shell, "hello?");
    assert!(shell.commit().is_none());
    assert_eq!(shell.target, None);
    assert_eq!(shell.active().comments[0].replies.len(), 2);
}

#[test]
fn a_click_in_the_diff_takes_the_whole_change_block() {
    let mut shell = Shell::new();
    for (line, block) in [(0, (0, 1)), (5, (2, 14)), (14, (2, 14)), (24, (24, 24)), (30, (25, 32))]
    {
        shell.begin_at_diff_line(line);
        assert_eq!(shell.target, Some(Target::Diff(block.0, block.1)));
    }
}

#[test]
fn forwarding_a_selection_re_anchors_it_over_there() {
    let mut shell = Shell::new();
    let jitter = index(&shell, seed::JITTER);
    let labels = shell.active;
    shell.begin(Target::Diff(2, 14));
    type_in(&mut shell, "heads up @franciskafyi");
    shell.toggle_forward(Forwarding::Selection);
    assert_eq!(shell.forwarding, Forwarding::Selection);
    shell.forward_to(Forwarding::Selection, jitter);
    assert_eq!(shell.forwarding, Forwarding::Idle);
    assert_eq!(shell.target, None);
    assert!(shell.composer.is_empty());
    let landed = shell.threads[jitter].comments.last().expect("it landed");
    assert_eq!(landed.body, "heads up @franciskafyi");
    assert_eq!(landed.mentions, vec![1]);
    assert_eq!(landed.delivery, Delivery::Pending);
    assert_eq!(landed.handle, "jitter-2");
    match &landed.resolved {
        Resolution::Shifted { lines, similarity } => {
            assert_eq!(*lines, 6..19);
            assert_eq!((similarity.hits, similarity.total), (4, 5));
        }
        other => panic!("expected Shifted, got {other:?}"),
    }
    match landed.origin {
        Provenance::Forwarded { from_title, forwarded_by, original_author } => {
            assert_eq!(from_title, seed::LABELS);
            assert_eq!((forwarded_by, original_author), (seed::ME, seed::ME));
        }
        Provenance::Local => panic!("it came from elsewhere"),
    }
    assert!(shell.threads[jitter].unread);
    let record = &shell.threads[labels].sent[0];
    assert_eq!((record.to, record.comment), (jitter, landed.id));
    assert_eq!(record.excerpt, "heads up @franciskafyi");
    assert_eq!(shell.receipt_status(record), ReceiptStatus::HasIt);
}

#[test]
fn forwarding_into_a_busy_thread_queues_until_the_turn_ends() {
    let mut shell = on_jitter();
    let labels = index(&shell, seed::LABELS);
    let id = shell.active().comments[0].id;
    let jitter = shell.active;
    shell.forward_comment(id, labels);
    let landed = shell.threads[labels].comments.last().expect("it landed");
    assert_eq!(landed.delivery, Delivery::Queued);
    assert_eq!(landed.author, 1);
    assert_eq!(landed.mentions, vec![0]);
    assert_eq!(shell.receipt_status(&shell.threads[jitter].sent[0]), ReceiptStatus::NotToldYet);
    assert_eq!(shell.threads[jitter].sent[0].excerpt, "heads up @danilo-leal, this overlaps the label t...");
    shell.finish_turn(labels, Vec::new());
    let landed = shell.threads[labels].comments.last().expect("still there");
    assert_eq!(landed.delivery, Delivery::Pending);
    assert_eq!(shell.receipt_status(&shell.threads[jitter].sent[0]), ReceiptStatus::HasIt);
    let gone = landed.id;
    shell.switch_to(labels);
    shell.resolve_proposal(gone, false);
    assert_eq!(shell.receipt_status(&shell.threads[jitter].sent[0]), ReceiptStatus::Withdrawn);
    assert!(shell.dismissed.is_empty());
}

#[test]
fn a_bare_snippet_is_recorded_as_one() {
    let mut shell = Shell::new();
    let wrapping = index(&shell, seed::WRAPPING);
    shell.begin(Target::Prose(0));
    shell.forward_selection(wrapping);
    let landed = shell.threads[wrapping].comments.last().expect("it landed");
    assert_eq!(landed.body, "");
    assert!(landed.resolved.is_orphaned());
    assert_eq!(shell.active().sent[0].excerpt, "a snippet");
}

#[test]
fn nothing_is_forwarded_to_where_it_is() {
    let mut shell = on_jitter();
    let before = shell.next_id;
    let here = shell.active;
    let id = shell.active().comments[0].id;
    shell.forward_comment(id, here);
    shell.begin(Target::Prose(0));
    shell.forward_selection(here);
    assert_eq!(shell.target, Some(Target::Prose(0)));
    shell.begin(Target::Reply(id));
    shell.forward_selection(here + 1);
    assert_eq!(shell.target, Some(Target::Reply(id)));
    shell.forward_comment(12345, here + 1);
    shell.forward_to(Forwarding::Idle, here + 1);
    assert_eq!(shell.next_id, before);
    assert!(shell.active().sent.is_empty());
    // A thread that does not exist refuses, and the box is empty all the same.
    shell.begin(Target::Prose(0));
    shell.forward_selection(99);
    assert_eq!(shell.target, None);
    assert_eq!(shell.next_id, before);
}

fn envelope(shell: &Shell, from: usize, to: usize, sender: u32, from_title: &str) -> Envelope {
    Envelope {
        from: ThreadId(from as u32),
        to: ThreadId(to as u32),
        sender: ActorId(sender),
        author: ActorId(2),
        anchor: shell.threads[from].comments[0].anchor.clone(),
        body: "look".into(),
        mentions: vec![ActorId(3)],
        from_title: from_title.into(),
    }
}

#[test]
fn refusals_change_nothing() {
    let mut shell = Shell::new();
    let labels = index(&shell, seed::LABELS);
    let jitter = index(&shell, seed::JITTER);
    let agent = 4;
    let cases = [
        (envelope(&shell, labels, labels, 0, seed::LABELS), SendError::SameThread),
        (
            envelope(&shell, labels, 16, 0, seed::LABELS),
            SendError::UnknownThread(ThreadId(16)),
        ),
        (envelope(&shell, labels, jitter, agent, seed::JITTER), SendError::WouldLoop),
    ];
    for (e, why) in cases {
        let counts: Vec<usize> = shell.threads.iter().map(|t| t.comments.len()).collect();
        assert_eq!(shell.send(e).err(), Some(why));
        let after: Vec<usize> = shell.threads.iter().map(|t| t.comments.len()).collect();
        assert_eq!(counts, after);
        assert_eq!(shell.next_id, 5);
        assert!(shell.threads.iter().all(|t| t.sent.is_empty()));
    }
}

#[test]
fn an_agents_send_waits_and_a_persons_does_not() {
    let mut shell = Shell::new();
    let labels = index(&shell, seed::LABELS);
    let jitter = index(&shell, seed::JITTER);
    let receipt = shell
        .send(envelope(&shell, labels, jitter, 4, seed::LABELS))
        .expect("not where it came from");
    assert_eq!(receipt.delivery, Delivery::Queued);
    assert_eq!(receipt.comment.0, 6);
    assert_eq!(receipt.resolution, Resolution::Orphaned);
    // A person may hand something back deliberately.
    let receipt = shell
        .send(envelope(&shell, labels, jitter, 1, seed::JITTER))
        .expect("people may");
    assert_eq!(receipt.delivery, Delivery::Pending);
    let landed = shell.threads[jitter].comments.last().expect("it landed");
    assert_eq!((landed.author, landed.mentions.as_slice()), (2, &[3][..]));
}

/// The envelope with which `sender` hands on a comment a thread holds.
fn handing_on(shell: &Shell, from: usize, k: usize, to: usize, sender: u32) -> Envelope {
    let comment = &shell.threads[from].comments[k];
    Envelope {
        from: ThreadId(from as u32),
        to: ThreadId(to as u32),
        sender: ActorId(sender),
        author: ActorId(comment.author as u32),
        anchor: comment.anchor.clone(),
        body: comment.body.clone(),
        mentions: Vec::new(),
        from_title: shell.threads[from].seed.title.to_string(),
    }
}

#[test]
fn no_agent_hands_a_comment_back_to_where_it_came_from() {
    let mut shell = Shell::new();
    let labels = index(&shell, seed::LABELS);
    let jitter = index(&shell, seed::JITTER);
    let wrapping = index(&shell, seed::WRAPPING);
    shell.send(handing_on(&shell, labels, 0, jitter, 4)).expect("there is no loop yet");
    let k = shell.threads[jitter].comments.len() - 1;
    let held = shell.threads[labels].comments.len();
    let ids = shell.next_id;
    assert_eq!(
        shell.send(handing_on(&shell, jitter, k, labels, 4)).err(),
        Some(SendError::WouldLoop),
    );
    assert_eq!(shell.threads[labels].comments.len(), held);
    assert!(shell.threads[jitter].sent.is_empty());
    assert_eq!(shell.next_id, ids);
    // Somewhere else is no loop, other words are another comment, and a person
    // may hand something back deliberately.
    assert!(shell.send(handing_on(&shell, jitter, k, wrapping, 4)).is_ok());
    let mut other = handing_on(&shell, jitter, k, labels, 4);
    other.body.push('!');
    assert!(shell.send(other).is_ok());
    let mut other = handing_on(&shell, jitter, k, labels, 4);
    other.anchor.context_before.push("more".to_string());
    assert!(shell.send(other).is_ok());
    let mut other = handing_on(&shell, jitter, k, labels, 4);
    other.author = ActorId(3);
    assert!(shell.send(other).is_ok());
    assert!(shell.send(handing_on(&shell, jitter, k, labels, 0)).is_ok());
}

#[test]
fn what_an_agent_sent_waits_for_a_person() {
    let mut shell = on_jitter();
    let labels = index(&shell, seed::LABELS);
    let jitter = shell.active;
    shell.send(handing_on(&shell, labels, 0, jitter, 4)).expect("taken");
    let delivery = |shell: &Shell| shell.threads[jitter].comments.last().expect("landed").delivery;
    let id = shell.active().comments.last().expect("landed").id;
    shell.finish_turn(jitter, Vec::new());
    shell.set_mode(Proactive::Auto);
    shell.auto_release(jitter, seed::MODEL_CATALOG);
    shell.send_batch();
    shell.finish_turn(jitter, Vec::new());
    assert_eq!(delivery(&shell), Delivery::Queued);
    assert_eq!(shell.receipt_status(&shell.threads[labels].sent[0]), ReceiptStatus::NotToldYet);
    // Taking it out of the queue and putting it back is a person's doing.
    shell.toggle_delivery(id);
    assert_eq!(delivery(&shell), Delivery::Withheld);
    assert_eq!(shell.receipt_status(&shell.threads[labels].sent[0]), ReceiptStatus::NotToldYet);
    shell.toggle_delivery(id);
    assert_eq!(delivery(&shell), Delivery::Pending);
    assert_eq!(shell.receipt_status(&shell.threads[labels].sent[0]), ReceiptStatus::HasIt);
    shell.send(handing_on(&shell, labels, 0, jitter, 4)).expect("taken");
    let id = shell.active().comments.last().expect("landed").id;
    shell.resolve_proposal(id, true);
    assert_eq!(delivery(&shell), Delivery::Pending);
}

#[test]
fn the_token_under_the_caret_is_completed_and_the_rest_stays() {
    let mut shell = on_jitter();
    shell.begin(Target::Prose(0));
    type_in(&mut shell, "cc @mi and @as");
    assert_eq!(shell.mention_candidates(), vec![MentionTarget::Actor(2)]);
    shell.composer.move_to(6);
    assert_eq!(shell.mention_candidates(), vec![MentionTarget::Actor(3)]);
    shell.on_composer_event(ComposerEvent::Complete);
    assert_eq!(shell.composer.text(), "cc @mikayla  and @as");
    assert_eq!(shell.composer.selection(), 12..12);
    assert_eq!(shell.composer.text_before_caret(), "cc @mikayla ");
    assert_eq!(shell.composer.text_behind_caret(), " and @as");
    assert!(!shell.picker_open());
    shell.composer.move_to(1);
    assert!(shell.mention_candidates().is_empty());
    shell.composer.move_to(99);
    assert_eq!(shell.composer.text_behind_caret(), "");
    assert_eq!(shell.mention_candidates(), vec![MentionTarget::Actor(2)]);
}

#[test]
fn the_whole_token_is_completed_wherever_the_caret_is_in_it() {
    let mut shell = on_jitter();
    shell.begin(Target::Prose(0));
    for caret in 1..6 {
        shell.set_composer("@fran");
        shell.composer.move_to(caret);
        assert_eq!(shell.mention_candidates(), vec![MentionTarget::Actor(1)]);
        assert_eq!(shell.highlighted_row(), Some(0));
        shell.on_composer_event(ComposerEvent::Complete);
        assert_eq!(shell.composer.text(), "@franciskafyi ");
        assert_eq!(shell.composer.selection(), 14..14);
        assert_eq!(shell.highlighted_row(), None);
    }
    shell.set_composer("cc @mika, and you");
    shell.composer.move_to(5);
    shell.complete_mention(MentionTarget::Actor(3));
    assert_eq!(shell.composer.text(), "cc @mikayla , and you");
    assert_eq!(shell.composer.text_before_caret(), "cc @mikayla ");
    // In front of the `@` the caret is in no token.
    shell.set_composer("cc @mika");
    shell.composer.move_to(3);
    assert!(shell.mention_candidates().is_empty());
    // The highlight never leaves the list.
    shell.set_composer("@");
    shell.mention_sel = 99;
    assert_eq!(shell.highlighted_row(), Some(shell.mention_candidates().len() - 1));
}

#[test]
fn what_a_person_puts_back_is_armed_when_the_turn_ends() {
    let mut shell = Shell::new();
    let labels = index(&shell, seed::LABELS);
    let wrapping = index(&shell, seed::WRAPPING);
    shell.send(handing_on(&shell, labels, 0, wrapping, 4)).expect("taken");
    shell.send(handing_on(&shell, labels, 0, wrapping, 4)).expect("taken");
    shell.switch_to(wrapping);
    let n = shell.active().comments.len();
    let id = shell.active().comments[n - 1].id;
    shell.toggle_delivery(id);
    shell.toggle_delivery(id);
    assert_eq!(shell.active().comments[n - 1].delivery, Delivery::Queued);
    assert_eq!(shell.put_back, vec![id]);
    shell.finish_turn(wrapping, Vec::new());
    assert_eq!(shell.active().comments[n - 1].delivery, Delivery::Pending);
    // Nobody looked at the other one.
    assert_eq!(shell.active().comments[n - 2].delivery, Delivery::Queued);
}

#[test]
fn withholding_is_a_toggle() {
    let mut shell = on_jitter();
    let id = shell.active().comments[0].id;
    shell.toggle_delivery(id);
    assert_eq!(shell.active().comments[0].delivery, Delivery::Withheld);
    shell.toggle_delivery(id);
    assert_eq!(shell.active().comments[0].delivery, Delivery::Pending);
    shell.toggle_delivery(id);
    let here = shell.active;
    shell.start_turn(here, Vec::new(), 1);
    shell.toggle_delivery(id);
    assert_eq!(shell.active().comments[0].delivery, Delivery::Queued);
    shell.toggle_delivery(id);
    assert_eq!(shell.active().comments[0].delivery, Delivery::Withheld);
    shell.threads[here].comments[0].delivery = Delivery::Delivered { turn: 1 };
    shell.toggle_delivery(id);
    assert_eq!(shell.active().comments[0].delivery, Delivery::Delivered { turn: 1 });
    shell.threads[here].comments[0].delivery = Delivery::Proposed;
    shell.toggle_delivery(id);
    assert_eq!(shell.active().comments[0].delivery, Delivery::Proposed);
    shell.toggle_delivery(4242);
}

#[test]
fn a_turn_that_ends_elsewhere_marks_its_thread_unread() {
    let mut shell = on_jitter();
    type_in(&mut shell, "x");
    shell.begin(Target::Prose(0));
    type_in(&mut shell, "a note");
    let turn = shell.commit().expect("a turn starts");
    let jitter = shell.active;
    let labels = index(&shell, seed::LABELS);
    shell.switch_to(labels);
    assert!(!shell.threads[jitter].unread);
    shell.finish_turn(turn.thread, turn.replies);
    assert!(shell.threads[jitter].unread);
    shell.visit(jitter);
    assert!(!shell.threads[jitter].unread);
    // A turn without replies is nothing to read, and one of no thread is none.
    shell.finish_turn(labels, Vec::new());
    assert!(!shell.threads[labels].unread);
    assert!(shell.finish_turn(99, Vec::new()).is_empty());
}

#[test]
fn the_picker_completes_what_is_being_typed() {
    let mut shell = on_jitter();
    shell.begin(Target::Prose(0));
    assert!(!shell.picker_open());
    type_in(&mut shell, "cc @");
    let all = shell.mention_candidates();
    assert_eq!(
        all[..4],
        [
            MentionTarget::Actor(0),
            MentionTarget::Actor(1),
            MentionTarget::Actor(2),
            MentionTarget::Actor(3),
        ],
    );
    assert_eq!(all.len(), 9);
    assert!(shell.picker_open());
    shell.on_composer_event(ComposerEvent::MoveUp);
    assert_eq!(shell.mention_sel, 0);
    shell.on_composer_event(ComposerEvent::MoveDown);
    assert_eq!(shell.mention_sel, 1);
    type_in(&mut shell, "J");
    assert_eq!(shell.mention_sel, 0);
    assert_eq!(shell.mention_candidates(), vec![MentionTarget::Thread(4)]);
    shell.on_composer_event(ComposerEvent::MoveDown);
    assert_eq!(shell.mention_sel, 0);
    assert!(shell.on_composer_event(ComposerEvent::Complete).is_none());
    assert_eq!(shell.composer.text(), "cc @jitter ");
    assert!(!shell.picker_open());
    // Escape closes the picker before it cancels the comment.
    type_in(&mut shell, "@mi");
    assert_eq!(shell.mention_candidates(), vec![MentionTarget::Actor(3)]);
    shell.on_composer_event(ComposerEvent::Cancel);
    assert!(shell.picker_dismissed && !shell.picker_open());
    assert_eq!(shell.target, Some(Target::Prose(0)));
    shell.on_composer_event(ComposerEvent::Cancel);
    assert_eq!(shell.target, None);
    assert!(shell.composer.is_empty());
    // Nothing to complete, nothing happens.
    assert!(shell.on_composer_event(ComposerEvent::Complete).is_none());
    shell.on_composer_event(ComposerEvent::MoveDown);
    assert_eq!(shell.mention_sel, 0);
}

#[test]
fn enter_takes_the_suggestion_before_it_sends() {
    let mut shell = on_jitter();
    shell.begin(Target::Prose(0));
    type_in(&mut shell, "@as");
    assert!(shell.on_composer_event(ComposerEvent::Submit).is_none());
    assert_eq!(shell.composer.text(), "@as-cii ");
    assert!(shell.on_composer_event(ComposerEvent::Submit).is_some());
    shell.complete_mention(MentionTarget::Actor(1));
    assert_eq!(shell.composer.text(), "@franciskafyi ");
    shell.ask("mikayla");
    assert_eq!(shell.composer.text(), "@franciskafyi @mikayla ");
    shell.set_composer("see");
    shell.ask("mikayla");
    assert_eq!(shell.composer.text(), "see @mikayla ");
}

#[test]
fn moving_around_keeps_what_is_said() {
    let mut shell = Shell::new();
    let jitter = index(&shell, seed::JITTER);
    shell.begin(Target::Prose(0));
    shell.set_composer("half a thought");
    shell.show(Pane::Channel);
    assert_eq!(shell.view, Pane::Channel);
    shell.visit(jitter);
    assert_eq!(shell.view, Pane::Thread);
    assert_eq!(shell.target, Some(Target::Prose(0)));
    shell.follow(jitter);
    assert_eq!(shell.target, None);
    assert_eq!(shell.composer.text(), "half a thought");
    shell.switch_to(jitter);
    assert!(shell.composer.is_empty());
    shell.toggle_forward(Forwarding::Comment(5));
    shell.toggle_forward(Forwarding::Comment(5));
    assert_eq!(shell.forwarding, Forwarding::Idle);
}
