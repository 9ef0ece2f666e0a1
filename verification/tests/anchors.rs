use std::collections::hash_map::DefaultHasher;
use std::hash::{Hash, Hasher};
use std::ops::Range;

use delta_mock::model::anchor::{
    hash_content, BlockKind, PortableAnchor, Resolution, Similarity, Snapshot,
};

const ORIGINAL: &str = "\
fn humanize_model_id(model_id: &str) -> String {
    let mut result = String::with_capacity(model_id.len());
    let mut previous_numeric = false;
    for segment in model_id.split(['-', '_']) {
        if segment.is_empty() {
            continue;
        }
    }
    result
}";

fn anchor_at(text: &str, lines: Range<u32>, auto: bool) -> (PortableAnchor, Snapshot) {
    let snap = Snapshot::new("crates/delta_common/src/model_catalog.rs", text);
    let anchor = PortableAnchor::capture(&snap, BlockKind::CodeBlock, lines, auto);
    (anchor, snap)
}

#[test]
fn resolves_exactly_in_its_own_snapshot() {
    let (anchor, snap) = anchor_at(ORIGINAL, 1..3, false);
    assert_eq!(anchor.resolve(&snap), Resolution::Exact { lines: 1..3 });
}

#[test]
fn follows_a_block_that_moved() {
    // Another thread prepended a doc comment: same content, new position.
    let shifted = format!("/// Renders a persisted model id.\n/// Title-cased.\n{ORIGINAL}");
    let (anchor, _) = anchor_at(ORIGINAL, 1..3, false);
    let other = Snapshot::new("crates/delta_common/src/model_catalog.rs", &shifted);
    assert_eq!(anchor.resolve(&other), Resolution::Exact { lines: 3..5 });
}

#[test]
fn re_anchors_when_the_other_worktree_edited_the_block() {
    // The receiving thread rewrote the anchored lines but left the
    // surrounding function intact. This is the case that matters for
    // forwarding: the anchor must land, not orphan.
    let diverged = ORIGINAL.replace(
        "    let mut previous_numeric = false;",
        "    let mut previous_numeric = false; // reset per segment",
    );
    let (anchor, _) = anchor_at(ORIGINAL, 1..3, false);
    let other = Snapshot::new("crates/delta_common/src/model_catalog.rs", &diverged);
    match anchor.resolve(&other) {
        Resolution::Shifted { lines, .. } | Resolution::Exact { lines } => {
            assert_eq!(lines, 1..3)
        }
        Resolution::Orphaned => panic!("should have re-anchored via context"),
    }
}

#[test]
fn orphans_rather_than_guessing_when_the_file_is_unrecognisable() {
    let (anchor, _) = anchor_at(ORIGINAL, 1..3, false);
    let rewritten = Snapshot::new(
        "crates/delta_common/src/model_catalog.rs",
        "// file was rewritten from scratch\npub struct Catalog;\nimpl Catalog {}\n",
    );
    assert!(anchor.resolve(&rewritten).is_orphaned());
}

#[test]
fn never_resolves_across_files() {
    let (anchor, _) = anchor_at(ORIGINAL, 1..3, false);
    let elsewhere = Snapshot::new("crates/delta/src/delta.rs", ORIGINAL);
    assert!(anchor.resolve(&elsewhere).is_orphaned());
}

#[test]
fn hashing_ignores_reformatting() {
    assert_eq!(hash_content("let  x =   1;"), hash_content("let x = 1;"));
}

/// The hash is the one the default hasher gives the reflowed text as a string.
#[test]
fn the_hash_is_that_of_the_reflowed_string() {
    for text in ["", "  ", "let  x =   1;", "a\n\tb\u{3000}c", "h\u{e9}llo w\u{f6}rld"] {
        let reflowed = text.split_whitespace().collect::<Vec<_>>().join(" ");
        let mut hasher = DefaultHasher::new();
        reflowed.hash(&mut hasher);
        assert_eq!(hash_content(text), hasher.finish(), "{text:?}");
    }
    assert_ne!(hash_content("let x = 1;"), hash_content("let x = 2;"));
    assert_ne!(hash_content("a b"), hash_content("ab"));
}

#[test]
fn capturing_keeps_three_lines_either_side() {
    let (anchor, _) = anchor_at(ORIGINAL, 4..5, true);
    assert_eq!(anchor.content, "        if segment.is_empty() {");
    assert_eq!(anchor.context_before.len(), 3);
    assert_eq!(anchor.context_before[2], "    for segment in model_id.split(['-', '_']) {");
    assert_eq!(anchor.context_after.len(), 3);
    assert_eq!(anchor.context_after[0], "            continue;");
    assert_eq!(anchor.captured_lines, 4..5);
    assert!(anchor.auto_selected);
    assert_eq!(anchor.kind, BlockKind::CodeBlock);
}

#[test]
fn capturing_at_the_edges_keeps_what_context_there_is() {
    let (first, _) = anchor_at(ORIGINAL, 0..1, false);
    assert!(first.context_before.is_empty());
    assert_eq!(first.context_after.len(), 3);
    let (last, _) = anchor_at(ORIGINAL, 9..10, false);
    assert_eq!(last.content, "}");
    assert_eq!(last.context_before.len(), 3);
    assert!(last.context_after.is_empty());
}

/// Line numbers of another worktree need not exist in this one.
#[test]
fn capturing_out_of_bounds_keeps_nothing_of_what_is_not_there() {
    let (anchor, _) = anchor_at(ORIGINAL, 40..50, false);
    assert_eq!(anchor.content, "");
    assert_eq!(anchor.context_before.len(), 3);
    assert!(anchor.context_after.is_empty());
    let (across, _) = anchor_at(ORIGINAL, 8..50, false);
    assert_eq!(across.content, "    result\n}");
}

fn lines(prefix: &str, n: usize) -> String {
    (0..n).map(|i| format!("{prefix} {i}")).collect::<Vec<_>>().join("\n")
}

/// Two lines of context in five place a span that a caret expanded, and do not
/// place one that was selected by hand.
#[test]
fn a_deliberate_span_demands_more_context_than_an_automatic_one() {
    let here = "a\nb\nc\nX\nd\ne";
    let there = "q\nb\nc\nY\nr\ns";
    for (auto, landed) in [(true, true), (false, false)] {
        let (anchor, _) = anchor_at(here, 3..4, auto);
        let other = Snapshot::new("crates/delta_common/src/model_catalog.rs", there);
        let expected = if landed {
            Resolution::Shifted { lines: 3..4, similarity: Similarity { hits: 2, total: 5 } }
        } else {
            Resolution::Orphaned
        };
        assert_eq!(anchor.resolve(&other), expected);
    }
    // Three in five is enough for either.
    let closer = "q\nb\nc\nY\nd\ns";
    for auto in [true, false] {
        let (anchor, _) = anchor_at(here, 3..4, auto);
        let other = Snapshot::new("crates/delta_common/src/model_catalog.rs", closer);
        assert_eq!(
            anchor.resolve(&other),
            Resolution::Shifted { lines: 3..4, similarity: Similarity { hits: 3, total: 5 } },
        );
    }
}

/// Between two places with as much context, the first wins.
#[test]
fn the_first_of_the_best_places_wins() {
    let (anchor, _) = anchor_at("a\nX\nb", 1..2, false);
    let other =
        Snapshot::new("crates/delta_common/src/model_catalog.rs", "a\nY\nb\nz\na\nZ\nb");
    assert_eq!(
        anchor.resolve(&other),
        Resolution::Shifted { lines: 1..2, similarity: Similarity { hits: 2, total: 2 } },
    );
}

/// Where the content is still where it was, it is not looked for elsewhere.
#[test]
fn the_captured_place_comes_before_the_first_match() {
    let text = "x\nsame\ny\nsame\nz";
    let (anchor, snap) = anchor_at(text, 3..4, false);
    assert_eq!(anchor.resolve(&snap), Resolution::Exact { lines: 3..4 });
    let moved = Snapshot::new(
        "crates/delta_common/src/model_catalog.rs",
        "x\nsame\ny\nother\nsame\nz",
    );
    assert_eq!(anchor.resolve(&moved), Resolution::Exact { lines: 1..2 });
}

/// Context is compared without the white space around it.
#[test]
fn context_survives_reindentation() {
    let (anchor, _) = anchor_at("a\nb\nX\nc\nd", 2..3, false);
    let other = Snapshot::new(
        "crates/delta_common/src/model_catalog.rs",
        "    a\n\tb\nY\n  c  \nd",
    );
    assert_eq!(
        anchor.resolve(&other),
        Resolution::Shifted { lines: 2..3, similarity: Similarity { hits: 4, total: 4 } },
    );
}

#[test]
fn an_anchor_longer_than_the_file_orphans() {
    let (anchor, _) = anchor_at(&lines("row", 8), 0..8, true);
    let short = Snapshot::new("crates/delta_common/src/model_catalog.rs", &lines("line", 3));
    assert!(anchor.resolve(&short).is_orphaned());
    assert_eq!(anchor.resolve(&short).lines(), None);
}
