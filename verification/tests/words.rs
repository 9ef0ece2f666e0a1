use delta_mock::seed;
use delta_mock::shell::words::{
    answer, complete_with, derive_slug, mention_word, parse_mentions, short_path, synth_reply,
    thread_slug,
};

#[test]
fn a_mention_is_what_follows_the_at_without_its_punctuation() {
    assert_eq!(mention_word("@mikayla,"), Some("mikayla"));
    assert_eq!(mention_word("@as-cii."), Some("as-cii"));
    assert_eq!(mention_word("@a_b!?)"), Some("a_b"));
    assert_eq!(mention_word("@"), Some(""));
    assert_eq!(mention_word("@!!"), Some(""));
    assert_eq!(mention_word("@(x)"), Some("(x"));
    assert_eq!(mention_word("mikayla"), None);
    assert_eq!(mention_word(""), None);
    assert_eq!(mention_word("x@y"), None);
}

#[test]
fn mentions_need_the_at_in_front_and_the_whole_handle() {
    assert_eq!(parse_mentions("heads up @danilo-leal, this overlaps"), vec![0]);
    assert_eq!(parse_mentions("@as-cii @danilo-leal @as-cii"), vec![2, 0]);
    assert!(parse_mentions("(@mikayla) mail@mikayla @mika @Mikayla").is_empty());
    assert!(parse_mentions("").is_empty());
}

#[test]
fn completing_replaces_the_token_under_the_caret() {
    assert_eq!(complete_with("cc @fran", "franciskafyi"), "cc @franciskafyi ");
    assert_eq!(complete_with("@", "labels"), "@labels ");
    assert_eq!(complete_with("@a and @b", "mikayla"), "@a and @mikayla ");
    assert_eq!(complete_with("hey ", "mikayla"), "hey @mikayla ");
    assert_eq!(complete_with("caf\u{e9} @\u{e9}", "x"), "caf\u{e9} @x ");
}

#[test]
fn slugs_come_from_the_first_two_words() {
    assert_eq!(derive_slug("weekly standup thread"), "weekly-standup");
    assert_eq!(derive_slug("gpt five point"), "gpt-five");
    assert_eq!(derive_slug("(re)think v2.0"), "rethink-v20");
    assert_eq!(derive_slug("-- two words"), "two");
    assert_eq!(derive_slug("one"), "one");
    assert_eq!(derive_slug(""), "");
    let standup = seed::thread_by_title("Weekly Standup Thread").expect("seeded");
    assert_eq!(thread_slug(&standup), "weekly-standup");
    let shared = seed::thread_by_title("Commit SHA Link Discoverability").expect("seeded");
    assert_eq!(thread_slug(&shared), "commit-sha");
}

#[test]
fn paths_are_said_short() {
    assert_eq!(short_path("crates/delta/src/comment_summary.rs"), "comment_summary.rs");
    assert_eq!(short_path("lib.rs"), "lib.rs");
    assert_eq!(short_path("dir/"), "");
    assert_eq!(short_path("thread://Some Thread/transcript"), "\"Some Thread\" transcript");
    assert_eq!(short_path("thread://T/transcript/transcript"), "\"T\" transcript");
    assert_eq!(short_path("thread://T"), "\"T\" transcript");
}

#[test]
fn the_agent_answers_what_was_asked_for() {
    assert!(synth_reply("Please REMOVE this", "a.rs").starts_with("Done — dropped that from a.rs."));
    assert!(synth_reply("delete it", "a.rs").starts_with("Done"));
    assert!(synth_reply("drop?", "a.rs").starts_with("Done"));
    assert_eq!(
        synth_reply("Why?", "a.rs"),
        "Because the segments are title-cased before the acronym match runs, so `gpt` would \
         never reach the `\"gpt\"` arm otherwise. That ordering is what a.rs is guarding. Want \
         me to add a test that pins it?",
    );
    assert!(answer("is this right?", "a.rs").starts_with("Because"));
    assert!(answer("add a test", "a.rs").starts_with("Added a case covering a.rs. It asserts"));
    assert!(answer("rename it", "a.rs").starts_with("Renamed it across a.rs and the two"));
    assert!(answer("the name is off", "a.rs").starts_with("Renamed"));
    assert_eq!(
        answer("ok", "transcript"),
        "Understood — applying that to transcript. I'll leave the surrounding structure alone \
         so the diff stays reviewable.",
    );
    // Asking is looked for before testing, and removing before asking.
    assert!(answer("why test this", "a.rs").starts_with("Because"));
}
