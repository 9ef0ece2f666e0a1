use delta_mock::model::comment::Delivery;
use delta_mock::seed;
use delta_mock::shell::state::{holds_pair, Beat, Pane, Proactive};
use delta_mock::shell::signals::{confident_about, proposal_body};
use delta_mock::shell::Shell;

const WRAPPING: usize = 5;
const KEYBINDING: usize = 6;

#[test]
fn a_sweep_while_off_does_nothing() {
    let mut shell = Shell::new();
    assert_eq!(shell.threads[WRAPPING].seed.title, seed::WRAPPING);
    assert_eq!(shell.threads[KEYBINDING].seed.title, seed::KEYBINDING);
    assert!(shell.sweep().is_empty());
    assert_eq!(shell.next_id, 5);
    assert!(shell.board().is_none());
}

#[test]
fn a_finding_is_raised_held_in_every_thread_involved() {
    let mut shell = Shell::new();
    assert!(shell.set_mode(Proactive::Manual).is_empty());
    let raised = shell.threads[WRAPPING].comments.last().expect("raised");
    assert_eq!(raised.about.as_deref(), Some(seed::COMMENT_SUMMARY));
    assert_eq!(raised.delivery, Delivery::Proposed);
    assert_eq!(
        raised.body,
        "another thread has uncommitted changes in comment_summary.rs: @reply-keys. worth a look \
         before either lands.",
    );
    assert_eq!(raised.anchor.captured_lines, 0..3);
    assert!(!raised.anchor.auto_selected);
    assert!(shell.threads[WRAPPING].unread && shell.threads[KEYBINDING].unread);
    let other = shell.threads[KEYBINDING].comments.last().expect("raised");
    assert_eq!(other.about.as_deref(), Some(seed::COMMENT_SUMMARY));
    assert!(other.body.contains("@wrapping."));
    assert_eq!((raised.id, other.id), (6, 7));
    // Sweeping again raises nothing again.
    assert!(shell.sweep().is_empty());
    assert_eq!(shell.next_id, 7);
    let board = shell.board().expect("on");
    assert_eq!(board.len(), 1);
    assert_eq!(board[0].file, "comment_summary.rs");
    assert_eq!(board[0].rows, vec![(WRAPPING, false), (KEYBINDING, false)]);
}

#[test]
fn auto_releases_are_staggered_and_scheduled_once() {
    let mut shell = Shell::new();
    shell.set_mode(Proactive::Manual);
    let due = shell.cycle_mode();
    assert_eq!(shell.proactive, Proactive::Auto);
    let due: Vec<(usize, &str, u64)> =
        due.iter().map(|r| (r.thread, r.file.as_str(), r.millis)).collect();
    assert_eq!(
        due,
        vec![
            (WRAPPING, seed::COMMENT_SUMMARY, 2_000),
            (KEYBINDING, seed::COMMENT_SUMMARY, 10_000),
        ],
    );
    assert!(shell.sweep().is_empty());
    // Nothing is let through before its time.
    assert_eq!(shell.board().expect("on")[0].rows, vec![(WRAPPING, false), (KEYBINDING, false)]);
    shell.auto_release(WRAPPING, seed::COMMENT_SUMMARY);
    assert_eq!(shell.board().expect("on")[0].rows, vec![(WRAPPING, true), (KEYBINDING, false)]);
    shell.auto_release(WRAPPING, seed::COMMENT_SUMMARY);
    shell.auto_release(KEYBINDING, seed::MODEL_CATALOG);
    shell.auto_release(99, seed::COMMENT_SUMMARY);
    assert_eq!(shell.board().expect("on")[0].rows, vec![(WRAPPING, true), (KEYBINDING, false)]);
    // Leaving auto forgets the schedule, and a release that comes late is void.
    shell.cycle_mode();
    assert_eq!(shell.proactive, Proactive::Off);
    assert!(shell.auto_scheduled.is_empty());
    shell.auto_release(KEYBINDING, seed::COMMENT_SUMMARY);
    let held = shell.threads[KEYBINDING].comments.last().expect("raised");
    assert_eq!(held.delivery, Delivery::Proposed);
}

#[test]
fn a_finding_turned_down_is_not_raised_again() {
    let mut shell = Shell::new();
    shell.set_mode(Proactive::Manual);
    shell.switch_to(KEYBINDING);
    let id = shell.active().comments.last().expect("raised").id;
    shell.resolve_proposal(id, false);
    assert!(holds_pair(&shell.dismissed, KEYBINDING, seed::COMMENT_SUMMARY));
    assert!(!holds_pair(&shell.dismissed, WRAPPING, seed::COMMENT_SUMMARY));
    assert!(!holds_pair(&shell.dismissed, KEYBINDING, seed::MODEL_CATALOG));
    let before = shell.active().comments.len();
    shell.sweep();
    assert_eq!(shell.active().comments.len(), before);
    assert_eq!(shell.next_id, 7);
    // Letting the other one through is not a verdict on either.
    shell.switch_to(WRAPPING);
    let id = shell.active().comments.last().expect("raised").id;
    shell.resolve_proposal(id, true);
    assert_eq!(shell.active().comments.last().expect("there").delivery, Delivery::Pending);
    shell.resolve_proposal(4711, true);
    shell.resolve_proposal(4711, false);
}

#[test]
fn a_turn_that_ends_takes_its_thread_off_the_board() {
    let mut shell = Shell::new();
    shell.set_mode(Proactive::Manual);
    shell.finish_turn(WRAPPING, Vec::new());
    assert!(shell.board().expect("on").is_empty());
    let held = shell.threads[WRAPPING].comments.last().expect("raised");
    assert_eq!(held.delivery, Delivery::Proposed, "a turn ending is not somebody agreeing");
}

#[test]
fn confidence_is_in_overlapping_lines() {
    let shell = Shell::new();
    let labels = shell.active;
    assert!(confident_about(&shell.threads, WRAPPING, &vec![WRAPPING, KEYBINDING]));
    assert!(!confident_about(&shell.threads, WRAPPING, &vec![WRAPPING]));
    assert!(!confident_about(&shell.threads, labels, &vec![WRAPPING, KEYBINDING]));
    assert!(!confident_about(&shell.threads, WRAPPING, &vec![0]));
    assert_eq!(
        proposal_body(&shell.threads, "a/b.rs", labels, &vec![labels, WRAPPING, 0, KEYBINDING]),
        "another thread has uncommitted changes in b.rs: @wrapping, @reply-keys. worth a look \
         before either lands.",
    );
    assert_eq!(
        proposal_body(&shell.threads, "b.rs", labels, &vec![]),
        "another thread has uncommitted changes in b.rs: @. worth a look before either lands.",
    );
}

#[test]
fn the_modes_come_round() {
    assert_eq!(Proactive::Off.next(), Proactive::Manual);
    assert_eq!(Proactive::Manual.next(), Proactive::Auto);
    assert_eq!(Proactive::Auto.next(), Proactive::Off);
    assert_eq!(Proactive::Off.label(), "proactive: off");
    assert_eq!(Proactive::Manual.label(), "proactive: manual");
    assert_eq!(Proactive::Auto.label(), "proactive: auto");
    assert!(!Proactive::Off.on() && Proactive::Manual.on() && Proactive::Auto.on());
}

/// Plays a loaded script to its end, handing back the delays.
fn play_out(shell: &mut Shell, first: Option<u64>) -> Vec<u64> {
    let mut delays = Vec::new();
    let mut due = first;
    let mut index = 0;
    while let Some(millis) = due {
        delays.push(millis);
        let played = shell.play_beat(index);
        for release in played.releases {
            if release.millis < 6_000 {
                shell.auto_release(release.thread, &release.file);
            }
        }
        due = played.next;
        index += 1;
    }
    assert_eq!(index, shell.demo.len());
    let past = shell.play_beat(index);
    assert!(past.next.is_none() && past.turn.is_none() && past.releases.is_empty());
    delays
}

#[test]
fn the_demo_of_people_lands_where_it_says() {
    let mut shell = Shell::new();
    let first = shell.maybe_start_demo(Some("1"));
    assert_eq!(first, Some(700));
    let delays = play_out(&mut shell, first);
    let typed = delays.iter().filter(|d| **d == 36).count();
    let note = "heads up - this adds a display-name fallback in model_catalog.rs. you are on the \
                divider spacing work, are you in this file too?";
    let question =
        "@franciskafyi do we already have an acronym table somewhere, or is this a new one?";
    assert_eq!(typed, note.len() + question.len());
    assert_eq!(shell.active().seed.title, seed::JITTER);
    let landed = shell.active().comments.last().expect("forwarded");
    assert_eq!(landed.body, note);
    let card = shell.card(landed);
    assert_eq!(card.place, "model_catalog.rs  (line: 64-76)");
    let labels = shell.threads.iter().find(|t| t.seed.title == seed::LABELS).expect("seeded");
    let asked = labels.comments.last().expect("committed");
    assert_eq!(asked.body, question);
    assert_eq!(asked.mentions, vec![1]);
    assert_eq!(labels.sent.len(), 1);
}

#[test]
fn the_demo_of_the_workspace_turns_one_row_green() {
    let mut shell = Shell::new();
    let first = shell.maybe_start_demo(Some("v2"));
    assert_eq!(first, Some(300));
    let delays = play_out(&mut shell, first);
    assert_eq!(delays, vec![300, 900, 6000, 1000, 4000, 600, 6000, 900, 4500]);
    assert_eq!(shell.view, Pane::Thread);
    assert_eq!(shell.active, WRAPPING);
    assert_eq!(shell.board().expect("on")[0].rows, vec![(WRAPPING, true), (KEYBINDING, false)]);
    assert_eq!(shell.active().comments.last().expect("raised").delivery, Delivery::Pending);
}

#[test]
fn no_demo_is_played_unasked() {
    let mut shell = Shell::new();
    assert_eq!(shell.maybe_start_demo(None), None);
    assert!(shell.demo.is_empty());
    assert_eq!(shell.schedule_beat(0), None);
}

#[test]
fn approving_takes_the_first_finding_held_here() {
    let mut shell = Shell::new();
    shell.set_mode(Proactive::Manual);
    shell.demo = vec![(5, Beat::ApproveProposal), (7, Beat::Thread("nowhere"))];
    let played = shell.play_beat(0);
    assert_eq!(played.next, Some(7));
    assert!(shell.threads[WRAPPING].comments.iter().any(|c| c.delivery == Delivery::Proposed));
    shell.visit(WRAPPING);
    shell.play_beat(0);
    assert!(shell.active().comments.iter().all(|c| c.delivery != Delivery::Proposed));
    shell.play_beat(1);
    assert_eq!(shell.active, WRAPPING);
}
