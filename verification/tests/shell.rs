use delta_mock::model::actor::ActorId;
use delta_mock::model::anchor::{BlockKind, PortableAnchor, Resolution, Snapshot};
use delta_mock::model::comment::{CommentId, Delivery};
use delta_mock::model::overlap::{HistoricalTouch, OverlapIndex};
use delta_mock::model::thread::ThreadId;
use delta_mock::model::transport::{Envelope, Receipt, SendError, ThreadTransport};
use delta_mock::seed::{self, Status};
use delta_mock::shell::{
    arrival_delivery, comment_handle, forward_allowed, observe, parse_mentions, resolve_in,
    thread_slug, Shell, ThreadUi,
};

fn all_threads() -> Vec<ThreadUi> {
    let mut out = Vec::new();
    for project in seed::projects() {
        for seed_thread in project.threads {
            let agent_busy = seed_thread.status == Status::Running;
            out.push(ThreadUi {
                seed: seed_thread,
                project: project.name,
                comments: Vec::new(),
                replies: Vec::new(),
                sent: Vec::new(),
                turn: 1,
                unread: false,
                agent_busy,
            });
        }
    }
    out
}

fn thread(title: &str) -> ThreadUi {
    all_threads()
        .into_iter()
        .find(|t| t.seed.title == title)
        .expect("seed thread")
}

/// Anchor a run of diff lines in `from`, as `commit` would.
fn anchor_diff(from: &ThreadUi, a: u32, b: u32) -> PortableAnchor {
    PortableAnchor::capture(&from.diff_snapshot(), BlockKind::DiffHunk, a..b, true)
}

#[test]
fn a_snippet_forwarded_to_a_thread_that_moved_it_still_lands_exactly() {
    // The doc-comment block survives verbatim in the other worktree, just
    // at a different offset. Content-first resolution must follow it.
    let labels = thread("Prevent Unknown Model Labels");
    let jitter = thread("Fix Compaction Divider Spacing Jitter");
    let anchor = anchor_diff(&labels, 2, 7);
    assert_eq!(
        resolve_in(&jitter, &anchor),
        Resolution::Exact { lines: 6..11 },
        "doc block moved from index 2 to 6 between worktrees"
    );
}

#[test]
fn a_snippet_the_other_worktree_edited_re_anchors_by_context() {
    // `previous_numeric` grew a trailing comment there, so the content hash
    // misses and the surrounding lines have to carry it.
    let labels = thread("Prevent Unknown Model Labels");
    let jitter = thread("Fix Compaction Divider Spacing Jitter");
    let anchor = anchor_diff(&labels, 8, 10);
    match resolve_in(&jitter, &anchor) {
        Resolution::Shifted { lines, similarity } => {
            assert_eq!(lines, 12..14);
            let similarity = similarity.hits as f32 / similarity.total as f32;
            assert!(similarity > 0.9, "context was intact, got {similarity}");
        }
        other => panic!("expected Shifted, got {other:?}"),
    }
}

#[test]
fn a_snippet_sent_to_a_thread_touching_another_file_orphans_rather_than_guessing() {
    let labels = thread("Prevent Unknown Model Labels");
    let wrapping = thread("Investigate Comment Summary Wrapping");
    let anchor = anchor_diff(&labels, 2, 7);
    assert!(resolve_in(&wrapping, &anchor).is_orphaned());
    // ...and the content travels anyway, so the recipient can still read it.
    assert!(anchor.content.contains("Renders a persisted model id"));
}

#[test]
fn a_snippet_sent_to_a_thread_with_no_worktree_changes_orphans() {
    let labels = thread("Prevent Unknown Model Labels");
    let empty = thread("Explore Running Terminal Icon");
    let anchor = anchor_diff(&labels, 2, 7);
    assert!(resolve_in(&empty, &anchor).is_orphaned());
}

#[test]
fn transcript_anchors_never_re_resolve_in_someone_elses_transcript() {
    // Prose paths are per thread on purpose: quoting is honest, guessing is
    // not, and two transcripts share no coordinate system.
    let labels = thread("Prevent Unknown Model Labels");
    let jitter = thread("Fix Compaction Divider Spacing Jitter");
    let anchor =
        PortableAnchor::capture(&labels.prose_snapshot(), BlockKind::Paragraph, 0..1, true);
    assert!(resolve_in(&labels, &anchor).is_orphaned() == false);
    assert!(resolve_in(&jitter, &anchor).is_orphaned());
}

/// Why `prose_path` is per thread rather than a shared `thread://transcript`.
///
/// Resolution step 2 is a bare content-hash search over the whole document,
/// so any line that appears in both transcripts cross-anchors as `Exact` --
/// full confidence, wrong document. Conversation transcripts are full of
/// exactly the short boilerplate that collides ("Looks good to me.").
/// Scoping the path per thread makes that unrepresentable instead of rare.
#[test]
fn a_shared_transcript_path_would_cross_anchor_on_a_repeated_line() {
    let a = Snapshot::new(
        "thread://transcript",
        "Looks good to me.\nThe ordering matters because segments are title-cased.",
    );
    let b = Snapshot::new(
        "thread://transcript",
        "Rewrote the divider math.\nStill flaky at Comfortable.\nLooks good to me.",
    );
    let anchor = PortableAnchor::capture(&a, BlockKind::Paragraph, 0..1, true);
    assert_eq!(
        anchor.resolve(&b),
        Resolution::Exact { lines: 2..3 },
        "a shared path lets an unrelated transcript claim the anchor"
    );

    // With the real per-thread paths the same pair cannot collide at all.
    let a_scoped = Snapshot::new("thread://Thread A/transcript", "Looks good to me.");
    let b_scoped = Snapshot::new("thread://Thread B/transcript", "Looks good to me.");
    let scoped = PortableAnchor::capture(&a_scoped, BlockKind::Paragraph, 0..1, true);
    assert!(scoped.resolve(&b_scoped).is_orphaned());
}

/// The one case where cross-thread prose re-anchoring is legitimate: a
/// branch is a copy of its parent's transcript, so they share a path and a
/// lineage, and "where did this paragraph go" is a real question again.
#[test]
fn a_branch_shares_its_parents_transcript_so_prose_anchors_carry() {
    let parent = thread("Prevent Unknown Model Labels");
    let branch = thread("Prevent Unknown Model Labels (registry retry)");
    assert_eq!(parent.prose_path(), branch.prose_path());

    // The branch note pushed everything down one; the block is untouched.
    let moved =
        PortableAnchor::capture(&parent.prose_snapshot(), BlockKind::Paragraph, 0..1, true);
    assert_eq!(
        resolve_in(&branch, &moved),
        Resolution::Exact { lines: 1..2 }
    );

    // That block was rewritten on the branch, so context has to carry it.
    // Only the *leading* context matches: the parent kept talking after the
    // branch point, so the blocks that followed it there do not exist here.
    // Half a context is still enough to place it, which is the point of
    // having a threshold rather than demanding an exact surround.
    let rewritten =
        PortableAnchor::capture(&parent.prose_snapshot(), BlockKind::Paragraph, 3..4, true);
    match resolve_in(&branch, &rewritten) {
        Resolution::Shifted { lines, similarity } => {
            assert_eq!(lines, 4..5);
            let similarity = similarity.hits as f32 / similarity.total as f32;
            assert!(
                similarity >= 0.4,
                "leading context alone should place it, got {similarity}"
            );
        }
        other => panic!("expected Shifted, got {other:?}"),
    }
}

/// A branch is still not a free-for-all: unrelated threads stay walled off.
#[test]
fn branching_does_not_open_prose_anchoring_to_unrelated_threads() {
    let branch = thread("Prevent Unknown Model Labels (registry retry)");
    let jitter = thread("Fix Compaction Divider Spacing Jitter");
    assert_ne!(branch.prose_path(), jitter.prose_path());
    let anchor =
        PortableAnchor::capture(&branch.prose_snapshot(), BlockKind::Paragraph, 0..1, true);
    assert!(resolve_in(&jitter, &anchor).is_orphaned());
}

#[test]
fn seeded_comments_route_to_the_local_actor() {
    let mentioning_me = seed::comments()
        .iter()
        .filter(|c| parse_mentions(c.body).contains(&seed::ME))
        .count();
    assert!(
        mentioning_me >= 2,
        "the inbox needs incoming mentions to be reachable at launch"
    );
    // ...and none of them are authored by whoever is driving the window,
    // otherwise "someone mentioned you" would be self-addressed.
    assert!(seed::comments().iter().all(|c| c.author != seed::ME));
}

/// Nobody decides this. A note dropped into a thread whose agent is working
/// waits for the boundary; the same note into an idle thread arms straight
/// away. The sender is never asked, and never at fault for the timing.
#[test]
fn arrival_state_is_decided_by_the_recipient_not_the_sender() {
    let human = seed::ME;
    assert_eq!(arrival_delivery(human, true), Delivery::Queued);
    assert_eq!(arrival_delivery(human, false), Delivery::Pending);
}

/// Agents will start doing this themselves. When they do, their forwards
/// must not arm on their own and must not bounce back where they came from,
/// or two agents can steer each other with no human anywhere in the loop.
#[test]
fn an_agents_forward_always_waits_for_a_human_and_never_returns_home() {
    let agent = seed::actors().iter().position(|a| a.agent).expect("an agent");
    assert_eq!(arrival_delivery(agent, false), Delivery::Queued);
    assert_eq!(arrival_delivery(agent, true), Delivery::Queued);

    assert!(!forward_allowed(agent, Some("Thread A"), "Thread A"));
    assert!(forward_allowed(agent, Some("Thread A"), "Thread B"));
    // A person may hand something back deliberately; that is not a loop.
    assert!(forward_allowed(seed::ME, Some("Thread A"), "Thread A"));
}

/// Queued means "not yet", not "excluded". The boundary releases it.
#[test]
fn the_turn_boundary_arms_everything_that_arrived_mid_turn() {
    let mut shell = Shell::new();
    let active = shell.active;
    let ids = shell.threads[active].comments.iter().map(|c| c.id).collect::<Vec<_>>();
    assert_eq!(ids.len(), 2);
    // A third comment, so that there is one of each.
    assert!(shell
        .send(Envelope {
            from: ThreadId(active as u32 + 1),
            to: ThreadId(active as u32),
            sender: ActorId(1),
            author: ActorId(1),
            anchor: anchor_diff(&thread("Prevent Unknown Model Labels"), 2, 7),
            body: "a look, please".into(),
            mentions: Vec::new(),
            from_title: "Prevent Unknown Model Labels (registry retry)".into(),
        })
        .is_ok());
    shell.threads[active].comments[0].delivery = Delivery::Queued;
    shell.threads[active].comments[1].delivery = Delivery::Withheld;
    shell.threads[active].comments[2].delivery = Delivery::Delivered { turn: 1 };
    shell.finish_turn(active, Vec::new());
    let deliveries = shell.threads[active]
        .comments
        .iter()
        .map(|c| c.delivery)
        .collect::<Vec<_>>();
    assert_eq!(
        deliveries,
        vec![
            Delivery::Pending,
            Delivery::Withheld,
            Delivery::Delivered { turn: 1 }
        ],
        "withheld and delivered are untouched by the boundary"
    );
}

#[derive(Default)]
struct Outbox {
    sent: Vec<Envelope>,
}

impl ThreadTransport for Outbox {
    fn send(&mut self, envelope: Envelope) -> Result<Receipt, SendError> {
        if envelope.to == envelope.from {
            return Err(SendError::SameThread);
        }
        let id = CommentId(self.sent.len() as u32 + 1);
        self.sent.push(envelope);
        Ok(Receipt {
            comment: id,
            resolution: Resolution::Orphaned,
            delivery: Delivery::Queued,
        })
    }
}

/// The seam is real: something that is not the UI can implement it and be
/// driven by the same envelope. This is the shape a network backend takes.
#[test]
fn the_transport_seam_can_be_implemented_by_something_that_is_not_the_shell() {
    let labels = thread("Prevent Unknown Model Labels");
    let anchor = anchor_diff(&labels, 2, 7);
    let envelope = |to: u32| Envelope {
        from: ThreadId(0),
        to: ThreadId(to),
        sender: ActorId(seed::ME as u32),
        author: ActorId(1),
        anchor: anchor.clone(),
        body: "take a look".into(),
        mentions: vec![ActorId(1)],
        from_title: labels.seed.title.to_string(),
    };

    let mut outbox = Outbox::default();
    assert!(outbox.send(envelope(1)).is_ok());
    assert!(matches!(outbox.send(envelope(0)), Err(SendError::SameThread)));
    assert_eq!(outbox.sent.len(), 1);
    // The snippet travels whole, so a backend needs no second round trip.
    assert!(outbox.sent[0].anchor.content.contains("Renders a persisted"));
    assert!(!outbox.sent[0].is_snippet_only());
}

#[test]
fn an_envelope_with_no_body_is_a_snippet() {
    let labels = thread("Prevent Unknown Model Labels");
    let envelope = Envelope {
        from: ThreadId(0),
        to: ThreadId(1),
        sender: ActorId(seed::ME as u32),
        author: ActorId(seed::ME as u32),
        anchor: anchor_diff(&labels, 2, 7),
        body: String::new(),
        mentions: Vec::new(),
        from_title: labels.seed.title.to_string(),
    };
    assert!(envelope.is_snippet_only());
}

/// The case a diff cannot see: the two threads that disagree touch
/// different files entirely, so nothing in the overlap index fires.
#[test]
fn the_diverging_pair_has_no_textual_overlap_at_all() {
    let divergence = &seed::divergences()[0];
    let a = thread(divergence.a_thread);
    let b = thread(divergence.b_thread);
    assert_ne!(a.diff_path(), b.diff_path(), "different files");

    // No shared content either, beyond closing braces. Git merges both
    // without complaint; there is nothing for a line index to notice.
    let substantive = |line: &&seed::DiffLine| {
        line.2.chars().any(|c| c.is_alphanumeric())
    };
    let a_lines: Vec<_> = a
        .seed
        .diff_lines
        .iter()
        .filter(substantive)
        .map(|l| l.2.trim())
        .collect();
    let shared = b
        .seed
        .diff_lines
        .iter()
        .filter(substantive)
        .filter(|l| a_lines.contains(&l.2.trim()))
        .count();
    assert_eq!(shared, 0, "no overlapping content for a diff to catch");

    // The disagreement is only visible in what each said it would do.
    let (mine, theirs, _) = divergence.sides(divergence.a_thread).unwrap();
    assert_ne!(mine, theirs);
}

#[test]
fn each_side_of_a_divergence_sees_its_own_approach_first() {
    let d = &seed::divergences()[0];
    let (mine, theirs, other) = d.sides(d.a_thread).unwrap();
    assert_eq!(mine, d.a_approach);
    assert_eq!(theirs, d.b_approach);
    assert_eq!(other, d.b_thread);

    let (mine, theirs, other) = d.sides(d.b_thread).unwrap();
    assert_eq!(mine, d.b_approach);
    assert_eq!(theirs, d.a_approach);
    assert_eq!(other, d.a_thread);

    assert!(d.sides("some unrelated thread").is_none());
    // Each side anchors to the block where it stated its approach.
    assert!(d.block_for(d.a_thread).is_some());
    assert!(d.block_for(d.b_thread).is_some());
}

#[test]
fn mentions_are_parsed_out_of_the_body_and_deduplicated() {
    let body = "@franciskafyi can you look, cc @mikayla and @franciskafyi again @nobody";
    assert_eq!(parse_mentions(body), vec![1, 3]);
}

/// A comment id you can say out loud, scoped to the thread it lives in.
#[test]
fn comment_handles_are_readable_and_thread_scoped() {
    let labels = seed::thread_by_title("Prevent Unknown Model Labels").unwrap();
    assert_eq!(thread_slug(&labels), "labels");
    // Threads with no hand-written slug still get one.
    let bare = seed::thread_by_title("Explore Running Terminal Icon").unwrap();
    assert_eq!(thread_slug(&bare), "explore-running");

    let mut t = thread("Prevent Unknown Model Labels");
    t.comments.clear();
    assert_eq!(comment_handle(&t), "labels-1");
}

/// The cheap sweep, which is the only one that runs every turn.
#[test]
fn the_sweep_finds_live_threads_sharing_a_file_and_ignores_the_rest() {
    let all: Vec<ThreadUi> = all_threads();

    let found = observe(&all);
    let files: Vec<&str> = found.iter().map(|o| o.file.as_str()).collect();
    assert!(
        files.contains(&"crates/delta/src/comment_summary.rs"),
        "the v2 pair both have changes in comment_summary.rs, got {files:?}"
    );

    // Every reported file really does have more than one live thread in it.
    for observation in &found {
        assert!(observation.threads.len() > 1);
        for i in &observation.threads {
            assert!(all[*i].agent_busy, "idle threads cannot surprise anyone");
            assert!(all[*i].has_diff());
        }
    }

    // An idle thread in a shared file is not reported.
    let mut parked = all;
    for t in &mut parked {
        t.agent_busy = false;
    }
    assert!(observe(&parked).is_empty());
}

/// Dismissal has to survive the wording changing.
///
/// The sentence names the other threads, so a third thread joining the file
/// rewrites it. Keying on the file means a finding already turned down
/// stays down, which is the whole point of it being sticky.
#[test]
fn a_finding_is_identified_by_its_subject_not_its_sentence() {
    let file = "crates/delta/src/comment_summary.rs".to_string();

    // Two phrasings of the same finding, as the thread list grows.
    let two = "another thread has uncommitted changes in comment_summary.rs: @reply-keys.";
    let three =
        "another thread has uncommitted changes in comment_summary.rs: @reply-keys, @other.";
    assert_ne!(two, three, "the sentence changes when the thread list does");

    let dismissed: Vec<(usize, String)> = vec![(4, file.clone())];
    let suppressed = |thread: usize, subject: &str| {
        delta_mock::shell::state::holds_pair(&dismissed, thread, subject)
    };

    // Same subject, either phrasing -> still suppressed.
    assert!(suppressed(4, &file));
    // A different file is a different finding.
    assert!(!suppressed(4, "crates/delta_common/src/model_catalog.rs"));
    // And it is per thread, not global.
    assert!(!suppressed(1, &file));
}

/// You cannot @ an agent. Reaching the agent in another thread is a
/// forward, which is a deliberate send rather than a name in a sentence.
#[test]
fn agents_are_not_mention_targets() {
    let actors = seed::actors();
    let agent = actors.iter().find(|a| a.agent).expect("an agent");
    assert!(parse_mentions(&format!("hey @{}", agent.handle)).is_empty());
}

/// Threads are addressable, but only the ones you are in.
#[test]
fn you_can_only_address_threads_you_are_in() {
    let mine: Vec<_> = seed::addressable_by(seed::ME).iter().map(|t| t.slug).collect();
    assert!(mine.contains(&"registry-retry"));
    assert!(mine.contains(&"jitter"));

    // as-cii is not in the registry-retry thread, so cannot address it.
    let theirs: Vec<_> = seed::addressable_by(2).iter().map(|t| t.slug).collect();
    assert!(!theirs.contains(&"registry-retry"));
    assert!(theirs.contains(&"wrapping"));

    // Threads with no slug are not addressable by anyone.
    assert!(seed::addressable_by(seed::ME).iter().all(|t| !t.slug.is_empty()));
}

#[test]
fn mention_query_tracks_the_token_under_the_caret() {
    assert_eq!(Shell::mention_query("hey @fran"), Some("fran"));
    assert_eq!(Shell::mention_query("hey @"), Some(""));
    // a completed mention followed by a space is no longer a live query
    assert_eq!(Shell::mention_query("hey @franciskafyi look"), None);
    assert_eq!(Shell::mention_query("no mention here"), None);
}

#[test]
fn the_expertise_query_ranks_the_author_of_the_anchored_range() {
    let mut index = OverlapIndex::new(6);
    for (actor, file, start, end, commits) in &seed::BLAME {
        index.history.push(HistoricalTouch {
            author: ActorId(*actor as u32),
            file: file.to_string(),
            lines: *start..*end,
            commits: *commits,
        });
    }
    // lines 79-83 of model_catalog.rs are franciskafyi's doc comment
    let experts = index.experts(seed::MODEL_CATALOG, &(79..84));
    assert_eq!(experts[0].author, ActorId(1));
    assert!(experts[0].reason.contains("commit"));
}
