use delta_mock::model::actor::{Actor, ActorId, ActorKind, CURSOR_COLORS};
use delta_mock::model::anchor::{BlockKind, PortableAnchor, Snapshot};
use delta_mock::model::comment::{Comment, CommentId, CommentSet, Delivery, Origin, Reply};
use delta_mock::model::overlap::{ConflictKind, HistoricalTouch, LiveTouch, OverlapIndex};
use delta_mock::model::thread::{Thread, ThreadId, ThreadState, ThreadStatus};

fn anchor() -> PortableAnchor {
    let snapshot = Snapshot::new("src/lib.rs", "one\ntwo\nthree");
    PortableAnchor::capture(&snapshot, BlockKind::Paragraph, 1..2, false)
}

fn comment(id: u32, body: &str) -> Comment {
    Comment::new(CommentId(id), anchor(), body, ActorId(3), 7)
}

#[test]
fn a_new_comment_is_local_pending_and_unanswered() {
    let c = comment(1, "note");
    assert_eq!(c.id, CommentId(1));
    assert_eq!(c.body, "note");
    assert_eq!(c.author, ActorId(3));
    assert_eq!(c.created_at, 7);
    assert_eq!(c.delivery, Delivery::Pending);
    assert!(!c.origin.is_foreign());
    assert!(c.replies.is_empty());
    assert!(!c.resolved);
}

#[test]
fn forwarding_keeps_the_author_across_every_hop() {
    let mut c = comment(1, "note");
    c.delivery = Delivery::Withheld;
    c.resolved = true;
    c.replies.push(Reply { author: ActorId(2), body: "re".into(), in_reply_to: CommentId(1) });
    let once = c.forward(CommentId(9), ThreadId(4), "Thread Four", ActorId(5), 8);
    let twice = once.forward(CommentId(10), ThreadId(6), "Thread Six", ActorId(0), 9);
    for (copy, by) in [(&once, ActorId(5)), (&twice, ActorId(0))] {
        assert_eq!(copy.author, ActorId(3));
        assert_eq!(copy.body, "note");
        assert_eq!(copy.anchor.content, "two");
        assert_eq!(copy.delivery, Delivery::Pending);
        assert!(copy.replies.is_empty());
        assert!(!copy.resolved);
        assert!(copy.origin.is_foreign());
        match &copy.origin {
            Origin::Forwarded { original_author, forwarded_by, .. } => {
                assert_eq!(*original_author, ActorId(3));
                assert_eq!(*forwarded_by, by);
            }
            Origin::Local => panic!("forwarded comments are foreign"),
        }
    }
    match twice.origin {
        Origin::Forwarded { from_thread, from_thread_title, .. } => {
            assert_eq!(from_thread, ThreadId(6));
            assert_eq!(from_thread_title, "Thread Six");
        }
        Origin::Local => panic!("forwarded comments are foreign"),
    }
}

#[test]
fn ids_ascend_and_the_batch_is_what_is_pending_and_unresolved() {
    let mut set = CommentSet::default();
    assert_eq!(set.pending_count(), 0);
    let deliveries = [
        Delivery::Pending,
        Delivery::Queued,
        Delivery::Proposed,
        Delivery::Withheld,
        Delivery::Delivered { turn: 1 },
        Delivery::Pending,
    ];
    for (n, delivery) in deliveries.iter().enumerate() {
        let id = set.alloc_id();
        assert_eq!(id, CommentId(n as u32 + 1));
        let mut c = comment(id.0, "note");
        c.delivery = *delivery;
        set.insert(c);
    }
    let ids = set.pending().iter().map(|c| c.id.0).collect::<Vec<_>>();
    assert_eq!(ids, vec![1, 6]);
    assert_eq!(set.pending_count(), 2);
    set.get_mut(CommentId(1)).expect("there").resolved = true;
    set.get_mut(CommentId(4)).expect("there").delivery = Delivery::Pending;
    let ids = set.pending().iter().map(|c| c.id.0).collect::<Vec<_>>();
    assert_eq!(ids, vec![4, 6]);
    assert!(set.get_mut(CommentId(42)).is_none());
    assert_eq!(set.comments.len(), 6);
}

#[test]
fn threads_hold_their_comments() {
    let thread = Thread {
        id: ThreadId(1),
        title: "Title".into(),
        project: "delta".into(),
        status: ThreadStatus::Running,
        worktree: ".delta/worktrees/title".into(),
        branch: "title".into(),
        participants: vec![ActorId(0), ActorId(2)],
        added: 3,
        removed: 1,
        turn: 4,
        unread: true,
        shared: false,
    };
    let state = ThreadState { thread: thread.clone(), comments: CommentSet::default() };
    assert_eq!(state.thread.participants, thread.participants);
    assert_eq!(state.thread.title, "Title");
    assert_eq!(state.comments.pending_count(), 0);
    let actor = Actor {
        id: ActorId(0),
        handle: "someone".into(),
        kind: ActorKind::Human,
        color: CURSOR_COLORS[0],
    };
    assert_eq!(actor.clone().handle, "someone");
    assert_eq!(CURSOR_COLORS, [0xD4A017, 0xD4D4B0, 0x2E6FBF, 0xE33F26]);
}

fn touch(thread: u32, file: &str, lines: std::ops::Range<u32>, turn: u32) -> LiveTouch {
    LiveTouch { thread: ThreadId(thread), file: file.into(), lines, turn }
}

#[test]
fn conflicts_are_ranked_overlapping_first_then_most_recent() {
    let mut index = OverlapIndex::new(2);
    index.live.push(touch(1, "a.rs", 20..30, 5)); // adjacent, gap 0
    index.live.push(touch(2, "a.rs", 0..11, 1)); // overlapping, early
    index.live.push(touch(3, "a.rs", 15..40, 4)); // overlapping, late
    index.live.push(touch(4, "b.rs", 10..20, 9)); // another file
    index.live.push(touch(5, "a.rs", 23..24, 9)); // too far
    index.live.push(touch(6, "a.rs", 22..24, 6)); // adjacent, gap 2
    index.live.push(touch(0, "a.rs", 10..20, 9)); // the one asking
    let found = index.conflicts(ThreadId(0), "a.rs", &(10..20));
    let ranked = found.iter().map(|c| c.other_thread.0).collect::<Vec<_>>();
    assert_eq!(ranked, vec![3, 2, 6, 1]);
    assert_eq!(found[0].kind, ConflictKind::Overlapping);
    assert_eq!(found[2].kind, ConflictKind::Adjacent);
    assert_eq!(found[0].our_lines, 10..20);
    assert_eq!(found[0].their_lines, 15..40);
    assert_eq!(found[0].their_turn, 4);
    assert_eq!(found[0].file, "a.rs");
    assert!(index.conflicts(ThreadId(0), "c.rs", &(10..20)).is_empty());
}

#[test]
fn experts_are_ranked_by_lines_and_say_why() {
    let mut index = OverlapIndex::new(0);
    let mut wrote = |author: u32, lines: std::ops::Range<u32>, commits: u32| {
        index.history.push(HistoricalTouch {
            author: ActorId(author),
            file: "a.rs".into(),
            lines,
            commits,
        });
    };
    wrote(1, 0..12, 1);
    wrote(2, 12..20, 3);
    wrote(1, 18..19, 0);
    wrote(3, 90..99, 7);
    let experts = index.experts("a.rs", &(10..20));
    assert_eq!(experts.len(), 2);
    assert_eq!(experts[0].author, ActorId(2));
    assert_eq!(experts[0].lines_authored, 8);
    assert_eq!(experts[0].commits, 3);
    assert_eq!(experts[0].reason, "wrote 8 of these 10 lines, across 3 commits");
    assert_eq!(experts[1].author, ActorId(1));
    assert_eq!(experts[1].lines_authored, 3);
    assert_eq!(experts[1].reason, "wrote 3 of these 10 lines, across 1 commit");
    assert!(index.experts("b.rs", &(10..20)).is_empty());
    assert!(index.experts("a.rs", &(40..50)).is_empty());
}
