use delta_mock::seed::{self, SeedAnchor, Status};

#[test]
fn projects_are_listed_even_when_empty() {
    let projects = seed::projects();
    let shape: Vec<(&str, usize)> =
        projects.iter().map(|p| (p.name, p.threads.len())).collect();
    assert_eq!(
        shape,
        vec![
            ("daniloleal.co", 0),
            ("zed.dev", 0),
            ("Cloud", 2),
            ("delta", 13),
            ("delta-meta", 1),
            ("delta-prototype", 0),
            ("zed", 0),
        ],
    );
    assert_eq!(seed::threads().len(), 16);
}

#[test]
fn bare_threads_have_no_worktree_changes() {
    let bare = seed::thread_by_title("Weekly Standup Thread").expect("seeded");
    assert_eq!(bare.slug, "");
    assert_eq!(bare.participants, vec![1]);
    assert_eq!(bare.status, Status::Idle);
    assert!(bare.blocks.is_empty() && bare.diff_lines.is_empty());
    assert_eq!((bare.added, bare.removed), (0, 0));
    assert!(!bare.unread && !bare.shared && bare.branched_from.is_none());
    assert!(seed::thread_by_title("No Such Thread").is_none());
}

#[test]
fn diffs_are_numbered_and_marked() {
    let labels = seed::thread_by_title("Prevent Unknown Model Labels").expect("seeded");
    assert_eq!(labels.diff_lines.len(), 33);
    assert_eq!(labels.diff_lines[0], (77, None, "}"));
    assert_eq!(
        labels.diff_lines[7],
        (84, Some(true), "pub fn humanize_model_id(model_id: &str) -> String {"),
    );
    assert_eq!(
        labels.diff_lines[24],
        (101, Some(false), "            \"chatgpt\" => result.push_str(\"ChatGPT\"),"),
    );
    assert_eq!((labels.added, labels.removed), (64, 13));
    assert_eq!(labels.blocks.len(), 7);
    assert!(labels.blocks[2].code && !labels.blocks[3].code);
    for thread in seed::threads() {
        for pair in thread.diff_lines.windows(2) {
            assert_eq!(pair[0].0 + 1, pair[1].0, "{}", thread.title);
        }
    }
}

#[test]
fn a_branch_has_its_parents_root() {
    assert_eq!(
        seed::transcript_root("Prevent Unknown Model Labels (registry retry)"),
        "Prevent Unknown Model Labels",
    );
    assert_eq!(
        seed::transcript_root("Prevent Unknown Model Labels"),
        "Prevent Unknown Model Labels",
    );
    assert_eq!(seed::transcript_root("No Such Thread"), "No Such Thread");
}

#[test]
fn everyone_is_there() {
    let handles: Vec<&str> = seed::actors().iter().map(|a| a.handle).collect();
    assert_eq!(handles, vec!["danilo-leal", "franciskafyi", "as-cii", "mikayla", "delta"]);
    assert_eq!(seed::agent_in(&seed::actors()), 4);
    assert_eq!(seed::agent_in(&seed::actors()[..4].to_vec()), 0);
    assert_eq!(seed::actor(3).role, "product");
    assert_eq!(seed::actor(0).color, 0xD4A017);
}

#[test]
fn participation_decides_who_may_address_a_thread() {
    let retry = seed::thread_by_title(seed::RETRY).expect("seeded");
    assert!(retry.has(0) && retry.has(1) && !retry.has(2));
    assert!(retry.is_addressable_by(1) && !retry.is_addressable_by(2));
    let bare = seed::thread_by_title("Weekly Standup Thread").expect("seeded");
    assert!(bare.has(1) && !bare.is_addressable_by(1));
    let slugs: Vec<&str> = seed::addressable_by(3).iter().map(|t| t.slug).collect();
    assert_eq!(slugs, vec!["labels"]);
}

#[test]
fn comments_and_divergences_point_at_seeded_threads() {
    let anchors: Vec<SeedAnchor> = seed::comments().iter().map(|c| c.anchor).collect();
    assert_eq!(
        anchors,
        vec![SeedAnchor::Prose(0), SeedAnchor::Diff(2, 2), SeedAnchor::Diff(3, 4)],
    );
    for c in seed::comments() {
        assert!(seed::thread_by_title(c.thread).is_some());
    }
    let d = seed::divergences();
    assert_eq!(d.len(), 1);
    assert_eq!(d[0].owner, seed::ME);
    assert_eq!(d[0].block_for(d[0].a_thread), Some(1));
    assert_eq!(d[0].block_for(d[0].b_thread), Some(0));
    assert_eq!(d[0].block_for("elsewhere"), None);
}
