//! All content: who is here, what their threads said, and what they changed.
//!
//! Two threads deliberately touch **the same file** (`model_catalog.rs`) with
//! divergent worktrees. That is not decoration: forwarding a comment between
//! them is the only way to exercise `PortableAnchor::resolve`, and a workspace
//! where every anchor lands trivially would demonstrate nothing.

use vstd::prelude::*;

use crate::lists;
use crate::text;

verus! {

/// A line of a diff: its number in the file, whether it was added or removed,
/// and what it says.
pub type DiffLine = (u32, Option<bool>, &'static str);

#[derive(Clone, Copy, Debug, PartialEq, Eq, Structural)]
pub enum Status {
    Idle,
    Running,
    Conflicting,
}

/// Agent prose, one block per paragraph.
#[derive(Clone, Copy, Debug)]
pub struct Block {
    pub text: &'static str,
    pub code: bool,
}

#[verifier::ext_equal]
pub ghost struct BlockModel {
    pub text: Seq<char>,
    pub code: bool,
}

impl DeepView for Block {
    type V = BlockModel;

    open spec fn deep_view(&self) -> BlockModel {
        BlockModel { text: self.text@, code: self.code }
    }
}

fn p(text: &'static str) -> (r: Block)
    ensures
        r.deep_view() == (BlockModel { text: text@, code: false }),
{
    Block { text, code: false }
}

fn c(text: &'static str) -> (r: Block)
    ensures
        r.deep_view() == (BlockModel { text: text@, code: true }),
{
    Block { text, code: true }
}

/// The blocks of a table whose rows say whether they are code, and what they
/// say.
pub open spec fn blocks_of(rows: Seq<(bool, &'static str)>) -> Seq<BlockModel> {
    Seq::new(rows.len(), |i: int| BlockModel { text: rows[i].1@, code: rows[i].0 })
}

fn blocks(rows: &[(bool, &'static str)]) -> (r: Vec<Block>)
    ensures
        r.deep_view() == blocks_of(rows@),
{
    let mut out: Vec<Block> = Vec::new();
    let mut i: usize = 0;
    while i < rows.len()
        invariant
            i <= rows.len(),
            out.deep_view() == blocks_of(rows@).take(i as int),
        decreases rows.len() - i,
    {
        let ghost before = out.deep_view();
        let block = if rows[i].0 {
            c(rows[i].1)
        } else {
            p(rows[i].1)
        };
        out.push(block);
        assert(out.deep_view() =~= before.push(block.deep_view()));
        i += 1;
        assert(out.deep_view() =~= blocks_of(rows@).take(i as int));
    }
    assert(out.deep_view() =~= blocks_of(rows@));
    out
}

/// What the mark in front of a line means.
pub open spec fn change(mark: char) -> Option<bool> {
    if mark == '+' {
        Some(true)
    } else if mark == '-' {
        Some(false)
    } else {
        None
    }
}

/// The lines of a table whose rows hold the number, the mark and the text.
pub open spec fn lines_of(rows: Seq<(u32, char, &'static str)>) -> Seq<
    (u32, Option<bool>, Seq<char>),
> {
    Seq::new(rows.len(), |i: int| (rows[i].0, change(rows[i].1), rows[i].2@))
}

fn diff_lines(rows: &[(u32, char, &'static str)]) -> (r: Vec<DiffLine>)
    ensures
        r.deep_view() == lines_of(rows@),
{
    let mut out: Vec<DiffLine> = Vec::new();
    let mut i: usize = 0;
    while i < rows.len()
        invariant
            i <= rows.len(),
            out.deep_view() == lines_of(rows@).take(i as int),
        decreases rows.len() - i,
    {
        let ghost before = out.deep_view();
        let kind = if rows[i].1 == '+' {
            Some(true)
        } else if rows[i].1 == '-' {
            Some(false)
        } else {
            None
        };
        out.push((rows[i].0, kind, rows[i].2));
        assert(out.deep_view() =~= before.push(lines_of(rows@)[i as int]));
        i += 1;
        assert(out.deep_view() =~= lines_of(rows@).take(i as int));
    }
    assert(out.deep_view() =~= lines_of(rows@));
    out
}

// ---------------------------------------------------------------- actors ---

/// A participant. The colour is the one their cursor uses.
#[derive(Clone, Copy, Debug)]
pub struct SeedActor {
    pub handle: &'static str,
    pub color: u32,
    /// Kept for the agent-initiated forwarding rules. Agents are never named in
    /// the UI and are never mention targets -- you address a thread instead.
    pub agent: bool,
    /// Blame answers "who wrote this". Role answers "whose call is this". They
    /// are different questions, and a design divergence wants the second.
    pub role: &'static str,
}

#[verifier::ext_equal]
pub ghost struct SeedActorModel {
    pub handle: Seq<char>,
    pub color: u32,
    pub agent: bool,
    pub role: Seq<char>,
}

impl DeepView for SeedActor {
    type V = SeedActorModel;

    open spec fn deep_view(&self) -> SeedActorModel {
        SeedActorModel {
            handle: self.handle@,
            color: self.color,
            agent: self.agent,
            role: self.role@,
        }
    }
}

/// `(handle, colour, agent, role)`
pub const ACTORS: [(&'static str, u32, bool, &'static str); 5] = [
    ("danilo-leal", 0xD4A017, false, "design"),
    ("franciskafyi", 0x2E6FBF, false, "engineering"),
    ("as-cii", 0xE33F26, false, "engineering"),
    ("mikayla", 0x4A9E5C, false, "product"),
    ("delta", 0xD4D4B0, true, "agent"),
];

/// Everyone, in order.
pub open spec fn everyone() -> Seq<SeedActorModel> {
    Seq::new(
        ACTORS@.len(),
        |i: int|
            SeedActorModel {
                handle: ACTORS@[i].0@,
                color: ACTORS@[i].1,
                agent: ACTORS@[i].2,
                role: ACTORS@[i].3@,
            },
    )
}

/// One participant.
pub fn actor(i: usize) -> (r: SeedActor)
    requires
        i < everyone().len(),
    ensures
        r.deep_view() == everyone()[i as int],
{
    let rows = ACTORS;
    SeedActor { handle: rows[i].0, color: rows[i].1, agent: rows[i].2, role: rows[i].3 }
}

pub fn actors() -> (r: Vec<SeedActor>)
    ensures
        r.deep_view() == everyone(),
{
    let mut out: Vec<SeedActor> = Vec::new();
    let mut i: usize = 0;
    while i < 5
        invariant
            i <= 5,
            everyone().len() == 5,
            out.deep_view() == everyone().take(i as int),
        decreases 5 - i,
    {
        let ghost before = out.deep_view();
        out.push(actor(i));
        assert(out.deep_view() =~= before.push(everyone()[i as int]));
        i += 1;
        assert(out.deep_view() =~= everyone().take(i as int));
    }
    assert(out.deep_view() =~= everyone());
    out
}

/// Where the first agent stands in `actors`, or 0.
pub open spec fn first_agent(actors: Seq<SeedActorModel>) -> int {
    match lists::place(actors, |a: SeedActorModel| a.agent) {
        Some(i) => i,
        None => 0,
    }
}

/// Where the first agent stands in `actors`, or 0.
pub fn agent_in(actors: &Vec<SeedActor>) -> (r: usize)
    ensures
        r == first_agent(actors.deep_view()),
{
    let ghost all = actors.deep_view();
    let ghost p = |a: SeedActorModel| a.agent;
    let mut i: usize = 0;
    while i < actors.len()
        invariant
            all == actors.deep_view(),
            p == (|a: SeedActorModel| a.agent),
            i <= actors.len(),
            lists::position(all, p) == lists::position_from(all, p, i as int),
        decreases actors.len() - i,
    {
        assert(all[i as int] == actors@[i as int].deep_view());
        if actors[i].agent {
            return i;
        }
        i += 1;
    }
    0
}

/// Whoever is driving this window.
pub const ME: usize = 0;

pub const MODEL_CATALOG: &'static str = "crates/delta_common/src/model_catalog.rs";

pub const COMMENT_SUMMARY: &'static str = "crates/delta/src/comment_summary.rs";

/// Historical authorship, feeding `OverlapIndex::experts`. In the real thing
/// this is `git blame`; here it is hand-authored, so treat the *ranking* as
/// illustrative and only the *interaction* as evaluated.
///
/// Ranges are real file line numbers, so they stay comparable across worktrees
/// whose snapshots are indexed differently.
///
/// `(actor, file, start, end, commits)`
pub const BLAME: [(usize, &'static str, u32, u32, u32); 4] = [
    (1, MODEL_CATALOG, 79, 92, 4),
    (2, MODEL_CATALOG, 92, 110, 2),
    (2, MODEL_CATALOG, 77, 80, 1),
    (1, COMMENT_SUMMARY, 12, 26, 3),
];

// --------------------------------------------------------------- threads ---

#[derive(Debug)]
pub struct SeedThread {
    pub title: &'static str,
    /// What you type after `@`. Thread titles have spaces; slugs do not.
    pub slug: &'static str,
    /// Who is in this thread. You may only address a thread you are in -- the
    /// same rule a Slack channel has.
    pub participants: Vec<usize>,
    /// A thread can be branched to retry an approach. A branch inherits its
    /// parent's transcript, so the two share a coordinate system and prose
    /// anchors can legitimately re-resolve between them -- unlike two unrelated
    /// threads, which must orphan.
    pub branched_from: Option<&'static str>,
    pub status: Status,
    pub unread: bool,
    pub shared: bool,
    pub blocks: Vec<Block>,
    pub diff_dir: &'static str,
    pub diff_file: &'static str,
    pub diff_lines: Vec<DiffLine>,
    pub added: usize,
    pub removed: usize,
}

#[verifier::ext_equal]
pub ghost struct SeedThreadModel {
    pub title: Seq<char>,
    pub slug: Seq<char>,
    pub participants: Seq<usize>,
    pub branched_from: Option<Seq<char>>,
    pub status: Status,
    pub unread: bool,
    pub shared: bool,
    pub blocks: Seq<BlockModel>,
    pub diff_dir: Seq<char>,
    pub diff_file: Seq<char>,
    pub diff_lines: Seq<(u32, Option<bool>, Seq<char>)>,
    pub added: usize,
    pub removed: usize,
}

impl DeepView for SeedThread {
    type V = SeedThreadModel;

    open spec fn deep_view(&self) -> SeedThreadModel {
        SeedThreadModel {
            title: self.title@,
            slug: self.slug@,
            participants: self.participants@,
            branched_from: self.branched_from.deep_view(),
            status: self.status,
            unread: self.unread,
            shared: self.shared,
            blocks: self.blocks.deep_view(),
            diff_dir: self.diff_dir@,
            diff_file: self.diff_file@,
            diff_lines: self.diff_lines.deep_view(),
            added: self.added,
            removed: self.removed,
        }
    }
}

impl Clone for SeedThread {
    fn clone(&self) -> (r: Self)
        ensures
            r.deep_view() == self.deep_view(),
    {
        let mut participants: Vec<usize> = Vec::new();
        let mut i: usize = 0;
        while i < self.participants.len()
            invariant
                i <= self.participants.len(),
                participants@ == self.participants@.take(i as int),
            decreases self.participants.len() - i,
        {
            participants.push(self.participants[i]);
            i += 1;
            assert(participants@ =~= self.participants@.take(i as int));
        }
        assert(participants@ =~= self.participants@);
        let mut blocks: Vec<Block> = Vec::new();
        let mut j: usize = 0;
        while j < self.blocks.len()
            invariant
                j <= self.blocks.len(),
                blocks@ == self.blocks@.take(j as int),
            decreases self.blocks.len() - j,
        {
            blocks.push(self.blocks[j]);
            j += 1;
            assert(blocks@ =~= self.blocks@.take(j as int));
        }
        assert(blocks@ =~= self.blocks@);
        let mut diff_lines: Vec<DiffLine> = Vec::new();
        let mut k: usize = 0;
        while k < self.diff_lines.len()
            invariant
                k <= self.diff_lines.len(),
                diff_lines@ == self.diff_lines@.take(k as int),
            decreases self.diff_lines.len() - k,
        {
            diff_lines.push(self.diff_lines[k]);
            k += 1;
            assert(diff_lines@ =~= self.diff_lines@.take(k as int));
        }
        assert(diff_lines@ =~= self.diff_lines@);
        SeedThread {
            title: self.title,
            slug: self.slug,
            participants,
            branched_from: self.branched_from,
            status: self.status,
            unread: self.unread,
            shared: self.shared,
            blocks,
            diff_dir: self.diff_dir,
            diff_file: self.diff_file,
            diff_lines,
            added: self.added,
            removed: self.removed,
        }
    }
}

impl SeedThreadModel {
    /// A thread with no worktree changes yet.
    pub open spec fn bare(
        title: Seq<char>,
        status: Status,
        unread: bool,
        shared: bool,
    ) -> SeedThreadModel {
        SeedThreadModel {
            title,
            slug: ""@,
            participants: seq![1],
            branched_from: None,
            status,
            unread,
            shared,
            blocks: Seq::empty(),
            diff_dir: ""@,
            diff_file: ""@,
            diff_lines: Seq::empty(),
            added: 0,
            removed: 0,
        }
    }

    /// Whether `actor` may address this thread.
    pub open spec fn addressable(self, actor: usize) -> bool {
        self.slug.len() > 0 && self.participants.contains(actor)
    }
}

/// A thread with no worktree changes yet.
fn bare(title: &'static str, status: Status, unread: bool, shared: bool) -> (r: SeedThread)
    ensures
        r.deep_view() == SeedThreadModel::bare(title@, status, unread, shared),
{
    let r = SeedThread {
        title,
        slug: "",
        participants: vec![1],
        branched_from: None,
        status,
        unread,
        shared,
        blocks: Vec::new(),
        diff_dir: "",
        diff_file: "",
        diff_lines: Vec::new(),
        added: 0,
        removed: 0,
    };
    assert(r.deep_view() =~= SeedThreadModel::bare(title@, status, unread, shared));
    r
}

#[derive(Debug)]
pub struct SeedProject {
    pub name: &'static str,
    pub threads: Vec<SeedThread>,
}

#[verifier::ext_equal]
pub ghost struct SeedProjectModel {
    pub name: Seq<char>,
    pub threads: Seq<SeedThreadModel>,
}

impl DeepView for SeedProject {
    type V = SeedProjectModel;

    open spec fn deep_view(&self) -> SeedProjectModel {
        SeedProjectModel { name: self.name@, threads: self.threads.deep_view() }
    }
}

// -- thread 1: Prevent Unknown Model Labels ---------------------------------
//
// The agent keeps working after a comment lands. Without the last blocks the
// last thing on screen is the comment, and it reads like a prompt that ended
// the turn rather than a note on output the agent already produced.

pub const LABELS: &'static str = "Prevent Unknown Model Labels";

pub const LABELS_BLOCKS: [(bool, &'static str); 7] = [
    (false, "2. A retired/foreign model key (cases 1 and 4). Point a thread or the workspace default at a key nothing resolves. Realistic ways: open a synced thread that last ran on a provider you don't have configured, or sign out of a provider a thread was using."),
    (false, "3. Quickest of all: a temporary code override. Two throwaway lines in ModelSelector::render forcing the key:"),
    (true, "let model_key = Some(LanguageModelKey::from(\"ollama/llama-3.3-70b\"));"),
    (false, "right after the existing model_key binding at model_selector.rs:194. Run the app once on main (shows \"Unknown Model\", no icon) and once on this change (shows \"Llama 3.3 70b\")."),
    (false, "I went with the code override to keep the repro self-contained. humanize_model_id now lives in model_catalog.rs and is called from the selector, so the fallback is one function rather than a branch at every call site."),
    (true, "assert_eq!(humanize_model_id(\"sonnet-4-5\"), \"Sonnet 4.5\");"),
    (false, "Acronyms come from a small table and consecutive numeric segments join with dots, which is what turns 4-5 into 4.5. Next I will look at the selector's empty state, since an unresolvable key still leaves the icon slot blank."),
];

pub const LABELS_DIFF: [(u32, char, &'static str); 33] = [
    (77, ' ', "}"),
    (78, ' ', ""),
    (79, '+', "/// Renders a persisted model id in display-name form (`sonnet-4-5`"),
    (80, '+', "/// becomes \"Sonnet 4.5\") for keys that no registered provider can"),
    (81, '+', "/// resolve to a real display name. Alphabetic segments are title-cased"),
    (82, '+', "/// (known acronyms upper-cased), and consecutive numeric segments join with"),
    (83, '+', "/// dots since ids encode version dots as hyphens."),
    (84, '+', "pub fn humanize_model_id(model_id: &str) -> String {"),
    (85, '+', "    let mut result = String::with_capacity(model_id.len());"),
    (86, '+', "    let mut previous_numeric = false;"),
    (87, '+', "    for segment in model_id.split(['-', '_']) {"),
    (88, '+', "        if segment.is_empty() {"),
    (89, '+', "            continue;"),
    (90, '+', "        }"),
    (91, '+', "        let numeric = segment.chars().all(|c| c.is_ascii_digit());"),
    (92, ' ', "        if !result.is_empty() {"),
    (93, ' ', "            result.push(if numeric && previous_numeric {"),
    (94, ' ', "                '.'"),
    (95, ' ', "            } else {"),
    (96, ' ', "                ' '"),
    (97, ' ', "            });"),
    (98, ' ', "        }"),
    (99, ' ', "        match segment {"),
    (100, ' ', "            \"gpt\" => result.push_str(\"GPT\"),"),
    (101, '-', "            \"chatgpt\" => result.push_str(\"ChatGPT\"),"),
    (102, ' ', "            _ => {"),
    (103, ' ', "                let mut chars = segment.chars();"),
    (104, ' ', "            }"),
    (105, ' ', "        }"),
    (106, ' ', "        previous_numeric = numeric;"),
    (107, ' ', "    }"),
    (108, ' ', "    result"),
    (109, ' ', "}"),
];

pub open spec fn labels_thread() -> SeedThreadModel {
    SeedThreadModel {
        title: LABELS@,
        slug: "labels"@,
        participants: seq![0, 1, 3],
        branched_from: None,
        status: Status::Running,
        unread: false,
        shared: true,
        blocks: blocks_of(LABELS_BLOCKS@),
        diff_dir: "crates/delta_common/src/"@,
        diff_file: "model_catalog.rs"@,
        diff_lines: lines_of(LABELS_DIFF@),
        added: 64,
        removed: 13,
    }
}

fn labels() -> (r: SeedThread)
    ensures
        r.deep_view() == labels_thread(),
{
    let r = SeedThread {
        title: LABELS,
        slug: "labels",
        participants: vec![0, 1, 3],
        branched_from: None,
        status: Status::Running,
        unread: false,
        shared: true,
        blocks: blocks(&LABELS_BLOCKS),
        diff_dir: "crates/delta_common/src/",
        diff_file: "model_catalog.rs",
        diff_lines: diff_lines(&LABELS_DIFF),
        added: 64,
        removed: 13,
    };
    assert(r.deep_view() =~= labels_thread());
    r
}

// -- thread 1b: a branch of thread 1 ---------------------------------------
//
// A thread is branched to retry an approach. The first three blocks are the
// parent's verbatim but shifted down by the branch note, and the last one
// diverges -- so a prose anchor forwarded from the parent resolves `Exact` at a
// new offset, or `Shifted` where the text was rewritten. This is the one place
// cross-thread prose re-anchoring is meaningful, and it works because a branch
// shares its parent's transcript path.
//
// Its diff is in a file that shares **no lines and no symbols** with the
// call-site fix in thread 1. Git merges both without a murmur, and the codebase
// ends up resolving unknown model keys in two places.

pub const RETRY: &'static str = "Prevent Unknown Model Labels (registry retry)";

pub const RETRY_BLOCKS: [(bool, &'static str); 5] = [
    (false, "Branched off the label thread: rather than formatting at the call site, try teaching the registry to resolve the key and fall back once, centrally."),
    (false, "2. A retired/foreign model key (cases 1 and 4). Point a thread or the workspace default at a key nothing resolves. Realistic ways: open a synced thread that last ran on a provider you don't have configured, or sign out of a provider a thread was using."),
    (false, "3. Quickest of all: a temporary code override. Two throwaway lines in ModelSelector::render forcing the key:"),
    (true, "let model_key = Some(LanguageModelKey::from(\"ollama/llama-3.3-70b\"));"),
    (false, "right after the existing model_key binding at model_selector.rs:194. On this branch I skipped the override entirely and pointed the registry at a stub provider, which exercises the fallback rather than the formatter."),
];

pub const REGISTRY_DIFF: [(u32, char, &'static str); 11] = [
    (40, ' ', "impl ModelRegistry {"),
    (41, ' ', "    pub fn resolve(&self, key: &LanguageModelKey) -> Option<ModelInfo> {"),
    (42, ' ', "        if let Some(provider) = self.providers.get(key.provider()) {"),
    (43, ' ', "            return provider.model(key);"),
    (44, ' ', "        }"),
    (45, '+', "        // Nothing registered resolves this key. Rather than letting every"),
    (46, '+', "        // call site invent its own label, fall back once, centrally."),
    (47, '+', "        Some(ModelInfo::unresolved(key))"),
    (48, '-', "        None"),
    (49, ' ', "    }"),
    (50, ' ', "}"),
];

pub open spec fn retry_thread() -> SeedThreadModel {
    SeedThreadModel {
        title: RETRY@,
        slug: "registry-retry"@,
        participants: seq![0, 1],
        branched_from: Some(LABELS@),
        status: Status::Running,
        unread: false,
        shared: false,
        blocks: blocks_of(RETRY_BLOCKS@),
        diff_dir: "crates/delta_common/src/"@,
        diff_file: "model_registry.rs"@,
        diff_lines: lines_of(REGISTRY_DIFF@),
        added: 3,
        removed: 1,
    }
}

fn retry() -> (r: SeedThread)
    ensures
        r.deep_view() == retry_thread(),
{
    let r = SeedThread {
        title: RETRY,
        slug: "registry-retry",
        participants: vec![0, 1],
        branched_from: Some(LABELS),
        status: Status::Running,
        unread: false,
        shared: false,
        blocks: blocks(&RETRY_BLOCKS),
        diff_dir: "crates/delta_common/src/",
        diff_file: "model_registry.rs",
        diff_lines: diff_lines(&REGISTRY_DIFF),
        added: 3,
        removed: 1,
    };
    assert(r.deep_view() =~= retry_thread());
    r
}

// -- thread 2: Fix Compaction Divider Spacing Jitter ------------------------
//
// Same file, diverged worktree. The doc-comment block survives verbatim (so an
// anchor on it resolves `Exact` at a *new* position), while the
// `previous_numeric` line grew a trailing comment (so an anchor covering it
// falls through to context matching and resolves `Shifted`).

pub const JITTER: &'static str = "Fix Compaction Divider Spacing Jitter";

pub const JITTER_BLOCKS: [(bool, &'static str); 4] = [
    (false, "The jitter comes from the divider measuring itself before the compaction summary has laid out, so the first frame uses the pre-collapse height and the second corrects it."),
    (false, "Dropping DIVIDER_GAP from 8 to 6 hides it at the default density but not at Comfortable. The real fix is to defer the measure by a frame:"),
    (true, "cx.on_next_frame(|this, cx| this.remeasure_divider(cx));"),
    (false, "I also touched humanize_model_id in this worktree while chasing a label that wrapped oddly in the summary — that overlap is why this thread is flagged as conflicting."),
];

pub const JITTER_DIFF: [(u32, char, &'static str); 26] = [
    (58, ' ', "use std::borrow::Cow;"),
    (59, ' ', ""),
    (60, ' ', "/// Vertical gap either side of a compaction divider."),
    (61, '-', "const DIVIDER_GAP: f32 = 8.0;"),
    (62, '+', "const DIVIDER_GAP: f32 = 6.0;"),
    (63, ' ', ""),
    (64, ' ', "/// Renders a persisted model id in display-name form (`sonnet-4-5`"),
    (65, ' ', "/// becomes \"Sonnet 4.5\") for keys that no registered provider can"),
    (66, ' ', "/// resolve to a real display name. Alphabetic segments are title-cased"),
    (67, ' ', "/// (known acronyms upper-cased), and consecutive numeric segments join with"),
    (68, ' ', "/// dots since ids encode version dots as hyphens."),
    (69, ' ', "pub fn humanize_model_id(model_id: &str) -> String {"),
    (70, ' ', "    let mut result = String::with_capacity(model_id.len());"),
    (71, '+', "    let mut previous_numeric = false; // reset per segment"),
    (72, ' ', "    for segment in model_id.split(['-', '_']) {"),
    (73, ' ', "        if segment.is_empty() {"),
    (74, ' ', "            continue;"),
    (75, ' ', "        }"),
    (76, '+', "        let numeric = segment.bytes().all(|b| b.is_ascii_digit());"),
    (77, ' ', "        if !result.is_empty() {"),
    (78, ' ', "            result.push(if numeric && previous_numeric {"),
    (79, ' ', "                '.'"),
    (80, ' ', "            } else {"),
    (81, ' ', "                ' '"),
    (82, ' ', "            });"),
    (83, ' ', "        }"),
];

pub open spec fn jitter_thread() -> SeedThreadModel {
    SeedThreadModel {
        title: JITTER@,
        slug: "jitter"@,
        participants: seq![0, 1, 2],
        branched_from: None,
        status: Status::Conflicting,
        unread: false,
        shared: false,
        blocks: blocks_of(JITTER_BLOCKS@),
        diff_dir: "crates/delta_common/src/"@,
        diff_file: "model_catalog.rs"@,
        diff_lines: lines_of(JITTER_DIFF@),
        added: 3,
        removed: 1,
    }
}

fn jitter() -> (r: SeedThread)
    ensures
        r.deep_view() == jitter_thread(),
{
    let r = SeedThread {
        title: JITTER,
        slug: "jitter",
        participants: vec![0, 1, 2],
        branched_from: None,
        status: Status::Conflicting,
        unread: false,
        shared: false,
        blocks: blocks(&JITTER_BLOCKS),
        diff_dir: "crates/delta_common/src/",
        diff_file: "model_catalog.rs",
        diff_lines: diff_lines(&JITTER_DIFF),
        added: 3,
        removed: 1,
    };
    assert(r.deep_view() =~= jitter_thread());
    r
}

// -- thread 3: Investigate Comment Summary Wrapping -------------------------
//
// A different file entirely, so anchors forwarded here have nowhere to land and
// must degrade to `Orphaned` rather than guessing.

pub const WRAPPING: &'static str = "Investigate Comment Summary Wrapping";

pub const WRAPPING_BLOCKS: [(bool, &'static str); 3] = [
    (false, "The summary wraps mid-handle because it measures the rendered label rather than the grapheme count, so a mention chip counts as one character."),
    (false, "Switching to a width-aware truncation fixes it, but it needs the actor colour to survive the ellipsis:"),
    (true, "let shown = summary.truncate_to(width, Ellipsis::Tail);"),
];

pub const WRAPPING_DIFF: [(u32, char, &'static str); 12] = [
    (12, ' ', "impl CommentSummary {"),
    (13, '-', "    pub fn line(&self) -> String {"),
    (14, '+', "    pub fn line(&self, width: Pixels) -> String {"),
    (15, ' ', "        let mut out = String::new();"),
    (16, '+', "        let budget = width - self.gutter;"),
    (17, ' ', "        for part in &self.parts {"),
    (18, '-', "            out.push_str(&part.text);"),
    (19, '+', "            out.push_str(&part.truncate_to(budget));"),
    (20, ' ', "        }"),
    (21, ' ', "        out"),
    (22, ' ', "    }"),
    (23, ' ', "}"),
];

pub open spec fn wrapping_thread() -> SeedThreadModel {
    SeedThreadModel {
        title: WRAPPING@,
        slug: "wrapping"@,
        participants: seq![0, 2],
        branched_from: None,
        status: Status::Running,
        unread: true,
        shared: false,
        blocks: blocks_of(WRAPPING_BLOCKS@),
        diff_dir: "crates/delta/src/"@,
        diff_file: "comment_summary.rs"@,
        diff_lines: lines_of(WRAPPING_DIFF@),
        added: 4,
        removed: 3,
    }
}

fn wrapping() -> (r: SeedThread)
    ensures
        r.deep_view() == wrapping_thread(),
{
    let r = SeedThread {
        title: WRAPPING,
        slug: "wrapping",
        participants: vec![0, 2],
        branched_from: None,
        status: Status::Running,
        unread: true,
        shared: false,
        blocks: blocks(&WRAPPING_BLOCKS),
        diff_dir: "crates/delta/src/",
        diff_file: "comment_summary.rs",
        diff_lines: diff_lines(&WRAPPING_DIFF),
        added: 4,
        removed: 3,
    };
    assert(r.deep_view() =~= wrapping_thread());
    r
}

// -- thread 4: Multiplayer Comment Reply Keybinding -------------------------
//
// Lands in the same file as the wrapping thread. Neither one knows about the
// other -- which is the whole point of the workspace noticing.

pub const KEYBINDING: &'static str = "Multiplayer Comment Reply Keybinding";

pub const KEYBINDING_BLOCKS: [(bool, &'static str); 4] = [
    (false, "The reply affordance only appears on hover today, so there is no way to reach it from the keyboard at all."),
    (false, "I am adding a focusable reply target per comment row and binding `r` to it, which means the row needs a real focus handle rather than a plain div:"),
    (true, "let focus = cx.focus_handle();"),
    (false, "That lands in comment_summary.rs, where the row is built. I will keep the hover affordance so nothing regresses for mouse users."),
];

pub const KEYBINDING_DIFF: [(u32, char, &'static str); 9] = [
    (13, ' ', "    fn render_row(&self, cx: &mut Context<Self>) -> impl IntoElement {"),
    (14, '-', "        div()"),
    (15, '+', "        div()"),
    (16, '+', "            .track_focus(&self.focus)"),
    (17, '+', "            .on_action(cx.listener(Self::reply))"),
    (18, ' ', "            .flex()"),
    (19, ' ', "            .gap_2()"),
    (20, ' ', "            .child(self.summary.line(self.width))"),
    (21, ' ', "    }"),
];

pub open spec fn keybinding_thread() -> SeedThreadModel {
    SeedThreadModel {
        title: KEYBINDING@,
        slug: "reply-keys"@,
        participants: seq![0, 2],
        branched_from: None,
        status: Status::Running,
        unread: true,
        shared: false,
        blocks: blocks_of(KEYBINDING_BLOCKS@),
        diff_dir: "crates/delta/src/"@,
        diff_file: "comment_summary.rs"@,
        diff_lines: lines_of(KEYBINDING_DIFF@),
        added: 3,
        removed: 1,
    }
}

fn keybinding() -> (r: SeedThread)
    ensures
        r.deep_view() == keybinding_thread(),
{
    let r = SeedThread {
        title: KEYBINDING,
        slug: "reply-keys",
        participants: vec![0, 2],
        branched_from: None,
        status: Status::Running,
        unread: true,
        shared: false,
        blocks: blocks(&KEYBINDING_BLOCKS),
        diff_dir: "crates/delta/src/",
        diff_file: "comment_summary.rs",
        diff_lines: diff_lines(&KEYBINDING_DIFF),
        added: 3,
        removed: 1,
    };
    assert(r.deep_view() =~= keybinding_thread());
    r
}

// -- the rest ---------------------------------------------------------------

/// The threads of a table of titles. None of them has been touched.
pub open spec fn quiet(titles: Seq<&'static str>) -> Seq<SeedThreadModel> {
    Seq::new(
        titles.len(),
        |i: int| SeedThreadModel::bare(titles[i]@, Status::Idle, false, false),
    )
}

/// Adds the threads of a table of titles.
fn push_quiet(threads: &mut Vec<SeedThread>, titles: &[&'static str])
    ensures
        final(threads).deep_view() == old(threads).deep_view() + quiet(titles@),
{
    let ghost before = threads.deep_view();
    let mut i: usize = 0;
    assert(threads.deep_view() =~= before + quiet(titles@).take(0));
    while i < titles.len()
        invariant
            i <= titles.len(),
            threads.deep_view() == before + quiet(titles@).take(i as int),
        decreases titles.len() - i,
    {
        let ghost so_far = threads.deep_view();
        let thread = bare(titles[i], Status::Idle, false, false);
        threads.push(thread);
        assert(threads.deep_view() =~= so_far.push(quiet(titles@)[i as int]));
        i += 1;
        assert(threads.deep_view() =~= before + quiet(titles@).take(i as int));
    }
    assert(threads.deep_view() =~= before + quiet(titles@));
}

pub const CLOUD_QUIET: [&'static str; 2] = [
    "GPT Five Point Six Luna vs Nano",
    "Understanding organization creation user flow",
];

pub const DELTA_QUIET: [&'static str; 8] = [
    "Add Catchup Placeholder User Message",
    "Add Loading Feedback To Cloud Sync Popover",
    "Reuse Empty Threads On Readdition",
    "Explore Running Terminal Icon",
    "Design First Time Delta Onboarding",
    "Commit SHA Link Discoverability",
    "Reproducing external changes in shared threads",
    "Change Thread Primary Worktree",
];

pub const META_QUIET: [&'static str; 1] = ["Weekly Standup Thread"];

pub open spec fn delta_threads() -> Seq<SeedThreadModel> {
    seq![
        labels_thread(),
        retry_thread(),
        jitter_thread(),
        wrapping_thread(),
        keybinding_thread(),
    ] + quiet(DELTA_QUIET@)
}

/// Every project, in the order the sidebar lists them.
pub open spec fn every_project() -> Seq<SeedProjectModel> {
    seq![
        SeedProjectModel { name: "daniloleal.co"@, threads: Seq::empty() },
        SeedProjectModel { name: "zed.dev"@, threads: Seq::empty() },
        SeedProjectModel { name: "Cloud"@, threads: quiet(CLOUD_QUIET@) },
        SeedProjectModel { name: "delta"@, threads: delta_threads() },
        SeedProjectModel { name: "delta-meta"@, threads: quiet(META_QUIET@) },
        SeedProjectModel { name: "delta-prototype"@, threads: Seq::empty() },
        SeedProjectModel { name: "zed"@, threads: Seq::empty() },
    ]
}

fn no_threads(name: &'static str) -> (r: SeedProject)
    ensures
        r.deep_view() == (SeedProjectModel { name: name@, threads: Seq::empty() }),
{
    let threads: Vec<SeedThread> = Vec::new();
    assert(threads.deep_view() =~= Seq::<SeedThreadModel>::empty());
    SeedProject { name, threads }
}

fn cloud() -> (r: SeedProject)
    ensures
        r.deep_view() == (SeedProjectModel { name: "Cloud"@, threads: quiet(CLOUD_QUIET@) }),
{
    let mut threads: Vec<SeedThread> = Vec::new();
    push_quiet(&mut threads, &CLOUD_QUIET);
    assert(threads.deep_view() =~= quiet(CLOUD_QUIET@));
    SeedProject { name: "Cloud", threads }
}

fn delta() -> (r: SeedProject)
    ensures
        r.deep_view() == (SeedProjectModel { name: "delta"@, threads: delta_threads() }),
{
    let mut threads: Vec<SeedThread> = Vec::new();
    threads.push(labels());
    threads.push(retry());
    threads.push(jitter());
    threads.push(wrapping());
    threads.push(keybinding());
    assert(threads.deep_view() =~= seq![
        labels_thread(),
        retry_thread(),
        jitter_thread(),
        wrapping_thread(),
        keybinding_thread(),
    ]);
    push_quiet(&mut threads, &DELTA_QUIET);
    SeedProject { name: "delta", threads }
}

fn delta_meta() -> (r: SeedProject)
    ensures
        r.deep_view() == (SeedProjectModel { name: "delta-meta"@, threads: quiet(META_QUIET@) }),
{
    let mut threads: Vec<SeedThread> = Vec::new();
    push_quiet(&mut threads, &META_QUIET);
    assert(threads.deep_view() =~= quiet(META_QUIET@));
    SeedProject { name: "delta-meta", threads }
}

pub fn projects() -> (r: Vec<SeedProject>)
    ensures
        r.deep_view() == every_project(),
{
    let mut out: Vec<SeedProject> = Vec::new();
    out.push(no_threads("daniloleal.co"));
    out.push(no_threads("zed.dev"));
    out.push(cloud());
    out.push(delta());
    out.push(delta_meta());
    out.push(no_threads("delta-prototype"));
    out.push(no_threads("zed"));
    assert(out.deep_view() =~= every_project());
    out
}

/// The threads of some projects, one after another.
pub open spec fn threads_of(projects: Seq<SeedProjectModel>) -> Seq<SeedThreadModel>
    decreases projects.len(),
{
    if projects.len() == 0 {
        Seq::empty()
    } else {
        threads_of(projects.drop_last()) + projects.last().threads
    }
}

/// Every thread there is.
pub open spec fn every_thread() -> Seq<SeedThreadModel> {
    threads_of(every_project())
}

/// Every thread there is, in the order the sidebar lists them.
pub fn threads() -> (r: Vec<SeedThread>)
    ensures
        r.deep_view() == every_thread(),
{
    let all = projects();
    let ghost ps = all.deep_view();
    let mut out: Vec<SeedThread> = Vec::new();
    let mut i: usize = 0;
    assert(out.deep_view() =~= threads_of(ps.take(0)));
    while i < all.len()
        invariant
            ps == all.deep_view(),
            i <= all.len(),
            out.deep_view() == threads_of(ps.take(i as int)),
        decreases all.len() - i,
    {
        let ghost before = out.deep_view();
        let ghost mine = ps[i as int].threads;
        assert(mine == all@[i as int].threads.deep_view());
        let mut j: usize = 0;
        assert(out.deep_view() =~= before + mine.take(0));
        while j < all[i].threads.len()
            invariant
                i < all.len(),
                mine == all@[i as int].threads.deep_view(),
                j <= all@[i as int].threads.len(),
                out.deep_view() == before + mine.take(j as int),
            decreases all@[i as int].threads.len() - j,
        {
            let ghost so_far = out.deep_view();
            let thread = all[i].threads[j].clone();
            out.push(thread);
            assert(out.deep_view() =~= so_far.push(mine[j as int]));
            j += 1;
            assert(out.deep_view() =~= before + mine.take(j as int));
        }
        assert(mine.take(mine.len() as int) =~= mine);
        assert(ps.take(i + 1).drop_last() =~= ps.take(i as int));
        i += 1;
    }
    assert(ps.take(ps.len() as int) =~= ps);
    out
}

// -------------------------------------------------------------- comments ---

#[derive(Clone, Copy, Debug, PartialEq, Eq, Structural)]
pub enum SeedAnchor {
    Prose(usize),
    /// Inclusive run of diff-line indices.
    Diff(usize, usize),
}

/// Comments already in the threads when the window opens. Without these every
/// comment would be authored by whoever is driving, and "someone mentioned you"
/// would be unreachable.
#[derive(Clone, Copy, Debug)]
pub struct SeedComment {
    pub thread: &'static str,
    pub author: usize,
    pub body: &'static str,
    pub anchor: SeedAnchor,
}

#[verifier::ext_equal]
pub ghost struct SeedCommentModel {
    pub thread: Seq<char>,
    pub author: usize,
    pub body: Seq<char>,
    pub anchor: SeedAnchor,
}

impl DeepView for SeedComment {
    type V = SeedCommentModel;

    open spec fn deep_view(&self) -> SeedCommentModel {
        SeedCommentModel {
            thread: self.thread@,
            author: self.author,
            body: self.body@,
            anchor: self.anchor,
        }
    }
}

pub const FIVE_LINES: &'static str = "@danilo-leal these five lines restate what the signature already says. Worth dropping before this ships?";

pub const WIDTH_AWARE: &'static str = "@danilo-leal this is the width-aware path we sketched. Does subtracting the gutter here look right to you?";

pub const HEADS_UP: &'static str = "heads up @danilo-leal, this overlaps the label thread's hunk.";

/// The comments already there, in order.
pub open spec fn every_comment() -> Seq<SeedCommentModel> {
    seq![
        SeedCommentModel {
            thread: LABELS@,
            author: 1,
            body: FIVE_LINES@,
            anchor: SeedAnchor::Prose(0),
        },
        SeedCommentModel {
            thread: WRAPPING@,
            author: 2,
            body: WIDTH_AWARE@,
            anchor: SeedAnchor::Diff(2, 2),
        },
        SeedCommentModel {
            thread: JITTER@,
            author: 1,
            body: HEADS_UP@,
            anchor: SeedAnchor::Diff(3, 4),
        },
    ]
}

pub fn comments() -> (r: Vec<SeedComment>)
    ensures
        r.deep_view() == every_comment(),
{
    let mut out: Vec<SeedComment> = Vec::new();
    out.push(
        SeedComment { thread: LABELS, author: 1, body: FIVE_LINES, anchor: SeedAnchor::Prose(0) },
    );
    out.push(
        SeedComment {
            thread: WRAPPING,
            author: 2,
            body: WIDTH_AWARE,
            anchor: SeedAnchor::Diff(2, 2),
        },
    );
    out.push(
        SeedComment { thread: JITTER, author: 1, body: HEADS_UP, anchor: SeedAnchor::Diff(3, 4) },
    );
    assert(out.deep_view() =~= every_comment());
    out
}

// --------------------------------------------------------------- look-ups ---

/// The first thread with that title.
pub open spec fn titled(threads: Seq<SeedThreadModel>, title: Seq<char>) -> Option<
    SeedThreadModel,
> {
    lists::find(threads, |t: SeedThreadModel| t.title == title)
}

/// The thread whose transcript `title` is a copy of, at most `hops` branches up.
pub open spec fn root_of(threads: Seq<SeedThreadModel>, title: Seq<char>, hops: nat) -> Seq<char>
    decreases hops,
{
    match titled(threads, title) {
        Some(t) if hops > 0 && t.branched_from is Some => root_of(
            threads,
            t.branched_from->0,
            (hops - 1) as nat,
        ),
        _ => title,
    }
}

/// How many branches up a root is looked for.
pub const HOPS: usize = 8;

/// The thread whose transcript this one is a copy of.
pub open spec fn root(title: Seq<char>) -> Seq<char> {
    root_of(every_thread(), title, HOPS as nat)
}

fn find_title(threads: &Vec<SeedThread>, title: &str) -> (r: Option<usize>)
    ensures
        match r {
            Some(i) => i < threads.len() && i == lists::position(
                threads.deep_view(),
                |t: SeedThreadModel| t.title == title@,
            ),
            None => lists::position(
                threads.deep_view(),
                |t: SeedThreadModel| t.title == title@,
            ) == threads.len(),
        },
{
    let ghost all = threads.deep_view();
    let ghost p = |t: SeedThreadModel| t.title == title@;
    let mut i: usize = 0;
    while i < threads.len()
        invariant
            all == threads.deep_view(),
            p == (|t: SeedThreadModel| t.title == title@),
            i <= threads.len(),
            lists::position(all, p) == lists::position_from(all, p, i as int),
        decreases threads.len() - i,
    {
        assert(all[i as int] == threads@[i as int].deep_view());
        if text::same_text(threads[i].title, title) {
            return Some(i);
        }
        i += 1;
    }
    None
}

pub fn thread_by_title(title: &str) -> (r: Option<SeedThread>)
    ensures
        r.deep_view() == titled(every_thread(), title@),
{
    let all = threads();
    match find_title(&all, title) {
        Some(i) => {
            assert(all.deep_view()[i as int] == all@[i as int].deep_view());
            Some(all[i].clone())
        },
        None => None,
    }
}

/// The thread whose transcript this one is a copy of. Branches share it; every
/// other thread is its own root.
pub fn transcript_root(title: &'static str) -> (r: &'static str)
    ensures
        r@ == root(title@),
{
    let all = threads();
    let ghost ts = all.deep_view();
    let mut current = title;
    let mut hops: usize = HOPS;
    while hops > 0
        invariant
            ts == all.deep_view(),
            ts == every_thread(),
            root_of(ts, title@, HOPS as nat) == root_of(ts, current@, hops as nat),
        ensures
            root_of(ts, title@, HOPS as nat) == current@,
        decreases hops,
    {
        match find_title(&all, current) {
            Some(i) => {
                assert(ts[i as int] == all@[i as int].deep_view());
                match all[i].branched_from {
                    Some(parent) => {
                        current = parent;
                        hops -= 1;
                    },
                    None => {
                        break;
                    },
                }
            },
            None => {
                break;
            },
        }
    }
    current
}

/// A branch and its parent have the same root: whatever is said in either is
/// said in one transcript. (A chain of branches longer than the look-up follows
/// is left out.)
pub proof fn a_branch_shares_its_parents_root(
    threads: Seq<SeedThreadModel>,
    branch: Seq<char>,
    hops: nat,
)
    requires
        hops > 0,
        titled(threads, branch) matches Some(t) && t.branched_from matches Some(parent) && root_of(
            threads,
            parent,
            (hops - 1) as nat,
        ) == root_of(threads, parent, hops),
    ensures
        root_of(threads, branch, hops) == root_of(
            threads,
            titled(threads, branch)->0.branched_from->0,
            hops,
        ),
{
}

// ------------------------------------------------------------ divergence ---

/// Two threads solving one problem differently.
///
/// This is the class of conflict a diff cannot see. The two threads below touch
/// different files entirely -- git merges them cleanly and the product ends up
/// with two answers to the same question. The only place the disagreement is
/// visible is in what each thread *said it was going to do*, before it wrote a
/// line of code.
///
/// In production the two statements would be compared with a model. Here they
/// are declared, because what matters is the interaction, not the classifier.
#[derive(Clone, Copy, Debug)]
pub struct SeedDivergence {
    pub subject: &'static str,
    pub a_thread: &'static str,
    /// Block index where this thread stated its approach.
    pub a_block: usize,
    pub a_approach: &'static str,
    pub b_thread: &'static str,
    pub b_block: usize,
    pub b_approach: &'static str,
    /// Who gets to make the call.
    pub owner: usize,
}

#[verifier::ext_equal]
pub ghost struct SeedDivergenceModel {
    pub subject: Seq<char>,
    pub a_thread: Seq<char>,
    pub a_block: usize,
    pub a_approach: Seq<char>,
    pub b_thread: Seq<char>,
    pub b_block: usize,
    pub b_approach: Seq<char>,
    pub owner: usize,
}

impl DeepView for SeedDivergence {
    type V = SeedDivergenceModel;

    open spec fn deep_view(&self) -> SeedDivergenceModel {
        SeedDivergenceModel {
            subject: self.subject@,
            a_thread: self.a_thread@,
            a_block: self.a_block,
            a_approach: self.a_approach@,
            b_thread: self.b_thread@,
            b_block: self.b_block,
            b_approach: self.b_approach@,
            owner: self.owner,
        }
    }
}

pub const DISPLAY_NAME: &'static str = "where an unresolvable model key gets its display name";

pub const AT_THE_CALL_SITE: &'static str = "format it at the call site, in ModelSelector::render";

pub const IN_THE_REGISTRY: &'static str = "resolve it in the registry, with one central fallback";

/// The divergences there are.
pub open spec fn every_divergence() -> Seq<SeedDivergenceModel> {
    seq![
        SeedDivergenceModel {
            subject: DISPLAY_NAME@,
            a_thread: LABELS@,
            a_block: 1,
            a_approach: AT_THE_CALL_SITE@,
            b_thread: RETRY@,
            b_block: 0,
            b_approach: IN_THE_REGISTRY@,
            owner: ME,
        },
    ]
}

pub fn divergences() -> (r: Vec<SeedDivergence>)
    ensures
        r.deep_view() == every_divergence(),
{
    let mut out: Vec<SeedDivergence> = Vec::new();
    out.push(
        SeedDivergence {
            subject: DISPLAY_NAME,
            a_thread: LABELS,
            a_block: 1,
            a_approach: AT_THE_CALL_SITE,
            b_thread: RETRY,
            b_block: 0,
            b_approach: IN_THE_REGISTRY,
            owner: ME,
        },
    );
    assert(out.deep_view() =~= every_divergence());
    out
}

impl SeedDivergenceModel {
    /// This thread's approach, the other's, and the other thread.
    pub open spec fn sides(self, thread: Seq<char>) -> Option<(Seq<char>, Seq<char>, Seq<char>)> {
        if thread == self.a_thread {
            Some((self.a_approach, self.b_approach, self.b_thread))
        } else if thread == self.b_thread {
            Some((self.b_approach, self.a_approach, self.a_thread))
        } else {
            None
        }
    }

    /// Where this thread stated its approach.
    pub open spec fn block_for(self, thread: Seq<char>) -> Option<usize> {
        if thread == self.a_thread {
            Some(self.a_block)
        } else if thread == self.b_thread {
            Some(self.b_block)
        } else {
            None
        }
    }
}

/// Each side of a divergence sees its own approach first, and the two see the
/// same pair.
pub proof fn both_sides_see_the_same_pair(d: SeedDivergenceModel)
    requires
        d.a_thread != d.b_thread,
    ensures
        d.sides(d.a_thread) matches Some((mine, theirs, other)) && other == d.b_thread
            && d.sides(other) == Some((theirs, mine, d.a_thread)),
{
}

impl SeedDivergence {
    /// This thread's side of it, and the other thread's.
    pub fn sides(&self, thread: &str) -> (r: Option<(&'static str, &'static str, &'static str)>)
        ensures
            r.deep_view() == self.deep_view().sides(thread@),
    {
        if text::same_text(thread, self.a_thread) {
            Some((self.a_approach, self.b_approach, self.b_thread))
        } else if text::same_text(thread, self.b_thread) {
            Some((self.b_approach, self.a_approach, self.a_thread))
        } else {
            None
        }
    }

    pub fn block_for(&self, thread: &str) -> (r: Option<usize>)
        ensures
            r == self.deep_view().block_for(thread@),
    {
        if text::same_text(thread, self.a_thread) {
            Some(self.a_block)
        } else if text::same_text(thread, self.b_thread) {
            Some(self.b_block)
        } else {
            None
        }
    }
}

impl SeedThread {
    pub fn has(&self, actor: usize) -> (r: bool)
        ensures
            r == self.deep_view().participants.contains(actor),
    {
        let mut i: usize = 0;
        while i < self.participants.len()
            invariant
                i <= self.participants.len(),
                forall|k: int| 0 <= k < i ==> self.participants@[k] != actor,
            decreases self.participants.len() - i,
        {
            if self.participants[i] == actor {
                assert(self.participants@.contains(actor));
                return true;
            }
            i += 1;
        }
        false
    }

    /// Whether `actor` may address this thread. Slug-less threads are not
    /// addressable.
    pub fn is_addressable_by(&self, actor: usize) -> (r: bool)
        ensures
            r == self.deep_view().addressable(actor),
    {
        !text::is_empty(self.slug) && self.has(actor)
    }
}

/// Threads `actor` may address. Slug-less threads are not addressable.
pub fn addressable_by(actor: usize) -> (r: Vec<SeedThread>)
    ensures
        r.deep_view() == lists::kept(every_thread(), |t: SeedThreadModel| t.addressable(actor)),
{
    let all = threads();
    let ghost ts = all.deep_view();
    let ghost p = |t: SeedThreadModel| t.addressable(actor);
    let mut out: Vec<SeedThread> = Vec::new();
    let mut i: usize = 0;
    assert(out.deep_view() =~= lists::kept(ts.take(0), p));
    while i < all.len()
        invariant
            ts == all.deep_view(),
            p == (|t: SeedThreadModel| t.addressable(actor)),
            i <= all.len(),
            out.deep_view() == lists::kept(ts.take(i as int), p),
        decreases all.len() - i,
    {
        assert(ts.take(i + 1).drop_last() =~= ts.take(i as int));
        assert(ts[i as int] == all@[i as int].deep_view());
        if all[i].is_addressable_by(actor) {
            let ghost before = out.deep_view();
            let thread = all[i].clone();
            out.push(thread);
            assert(out.deep_view() =~= before.push(ts[i as int]));
        }
        i += 1;
    }
    assert(ts.take(ts.len() as int) =~= ts);
    out
}

/// Whoever may address a thread is in it, and the thread has a name to be
/// addressed by.
pub proof fn you_can_only_address_threads_you_are_in(
    threads: Seq<SeedThreadModel>,
    actor: usize,
    thread: SeedThreadModel,
)
    ensures
        lists::kept(threads, |t: SeedThreadModel| t.addressable(actor)).contains(thread) <==> {
            &&& threads.contains(thread)
            &&& thread.participants.contains(actor)
            &&& thread.slug.len() > 0
        },
{
    lists::lemma_kept(threads, |t: SeedThreadModel| t.addressable(actor));
}

// ------------------------------------------------------------------- laws --

/// A plus marks a line that was added, a minus one that was removed, and anything else
/// one that stayed.
pub proof fn marks_say_what_became_of_a_line(mark: char)
    ensures
        change('+') == Some(true),
        change('-') == Some(false),
        mark != '+' && mark != '-' ==> change(mark) is None,
{
}

/// A look-up by title finds the first thread that has it, and nothing where none does.
pub proof fn a_title_finds_the_first_thread(
    threads: Seq<SeedThreadModel>,
    title: Seq<char>,
    k: int,
)
    ensures
        0 <= k < threads.len() && threads[k].title == title && (forall|j: int|
            0 <= j < k ==> (#[trigger] threads[j]).title != title) ==> titled(threads, title)
            == Some(threads[k]),
        titled(threads, title) is None <==> forall|j: int|
            0 <= j < threads.len() ==> (#[trigger] threads[j]).title != title,
{
    let p = |t: SeedThreadModel| t.title == title;
    lists::a_place_is_the_first(threads, p, k);
    lists::lemma_position(threads, p);
    if 0 <= k < threads.len() && threads[k].title == title && (forall|j: int|
        0 <= j < k ==> (#[trigger] threads[j]).title != title) {
        lists::lemma_is_position(threads, p, k);
    }
    if titled(threads, title) is None {
        assert forall|j: int| 0 <= j < threads.len() implies (#[trigger] threads[j]).title
            != title by {
            assert(!p(threads[j]));
        }
    }
}

/// Whether each of the titles is that of a branch of the next, and the last is of none.
pub open spec fn line_of_descent(threads: Seq<SeedThreadModel>, line: Seq<Seq<char>>) -> bool {
    &&& line.len() > 0
    &&& forall|i: int|
        0 <= i < line.len() - 1 ==> (titled(threads, #[trigger] line[i]) matches Some(t)
            && t.branched_from == Some(line[i + 1]))
    &&& titled(threads, line.last()) matches Some(t) ==> t.branched_from is None
}

/// A thread's root is where its line of branches ends, as far as eight branches up; a
/// thread that is no branch is its own.
pub proof fn a_root_ends_the_line_of_branches(
    threads: Seq<SeedThreadModel>,
    line: Seq<Seq<char>>,
    hops: nat,
)
    requires
        line_of_descent(threads, line),
        line.len() <= hops + 1,
    ensures
        root_of(threads, line[0], hops) == line.last(),
        threads == every_thread() && line.len() <= 9 ==> root(line[0]) == line.last(),
    decreases line.len(),
{
    lemma_root(threads, line, hops);
    if line.len() <= 9 {
        lemma_root(threads, line, 8);
    }
}

proof fn lemma_root(threads: Seq<SeedThreadModel>, line: Seq<Seq<char>>, hops: nat)
    requires
        line_of_descent(threads, line),
        line.len() <= hops + 1,
    ensures
        root_of(threads, line[0], hops) == line.last(),
    decreases line.len(),
{
    if line.len() > 1 {
        let rest = line.skip(1);
        assert(titled(threads, line[0])->0.branched_from == Some(line[1]));
        assert(rest[0] == line[1]);
        assert forall|i: int| 0 <= i < rest.len() - 1 implies (titled(
            threads,
            #[trigger] rest[i],
        ) matches Some(t) && t.branched_from == Some(rest[i + 1])) by {
            assert(rest[i] == line[i + 1]);
            assert(rest[i + 1] == line[i + 2]);
        }
        lemma_root(threads, rest, (hops - 1) as nat);
    }
}

/// The agent is the first actor who is one, or the first actor where none is.
pub proof fn the_agent_is_the_first(actors: Seq<SeedActorModel>, i: int)
    ensures
        0 <= i < actors.len() && actors[i].agent && (forall|k: int|
            0 <= k < i ==> !(#[trigger] actors[k]).agent) ==> first_agent(actors) == i,
        (forall|k: int| 0 <= k < actors.len() ==> !(#[trigger] actors[k]).agent) ==> first_agent(
            actors,
        ) == 0,
{
    let p = |a: SeedActorModel| a.agent;
    lists::a_place_is_the_first(actors, p, i);
    lists::lemma_position(actors, p);
    if 0 <= i < actors.len() && actors[i].agent && (forall|k: int|
        0 <= k < i ==> !(#[trigger] actors[k]).agent) {
        lists::lemma_is_position(actors, p, i);
    }
}

/// The threads of some projects are those of the first, then those of the others.
pub proof fn threads_come_project_by_project(
    a: Seq<SeedProjectModel>,
    b: Seq<SeedProjectModel>,
    project: SeedProjectModel,
)
    ensures
        threads_of(Seq::empty()) == Seq::<SeedThreadModel>::empty(),
        threads_of(seq![project]) == project.threads,
        threads_of(a + b) == threads_of(a) + threads_of(b),
    decreases b.len(),
{
    let one = seq![project];
    assert(one.drop_last() =~= Seq::<SeedProjectModel>::empty());
    assert(threads_of(one) == threads_of(one.drop_last()) + one.last().threads);
    assert(Seq::<SeedThreadModel>::empty() + project.threads =~= project.threads);
    let all = a + b;
    if b.len() == 0 {
        assert(all =~= a);
        assert(threads_of(a) + threads_of(b) =~= threads_of(a));
    } else {
        threads_come_project_by_project(a, b.drop_last(), project);
        assert(all.drop_last() =~= a + b.drop_last());
        assert(threads_of(a) + threads_of(b.drop_last()) + b.last().threads =~= threads_of(a) + (
        threads_of(b.drop_last()) + b.last().threads));
    }
}

/// The threads somebody can address come in the order of all threads, each once.
pub proof fn addressable_threads_keep_their_order(threads: Seq<SeedThreadModel>, actor: usize)
    ensures
        lists::picks(
            lists::kept(threads, |t: SeedThreadModel| t.addressable(actor)),
            threads.len() as int,
            |k: int| threads[k].slug.len() > 0 && threads[k].participants.contains(actor),
            |k: int| threads[k],
        ),
{
    let p = |t: SeedThreadModel| t.addressable(actor);
    let n = threads.len() as int;
    let out = |k: int| lists::kept(threads.take(k), p);
    let pick = |k: int| threads[k].slug.len() > 0 && threads[k].participants.contains(actor);
    let make = |k: int| threads[k];
    assert(threads.take(0) =~= Seq::<SeedThreadModel>::empty());
    assert(out(0) =~= Seq::<SeedThreadModel>::empty());
    assert forall|k: int| 0 <= k < n implies #[trigger] lists::picks_next(out, k, pick, make) by {
        assert(threads.take(k + 1).drop_last() =~= threads.take(k));
        assert(threads.take(k + 1).last() == threads[k]);
    }
    lists::lemma_picks(out, n, pick, make);
    assert(threads.take(n) =~= threads);
}

/// Each side of a divergence is told of at the block where that thread stated its
/// approach, with its own approach first; a thread on neither side is not.
pub proof fn a_side_is_told_at_its_own_block(d: SeedDivergenceModel, thread: Seq<char>)
    requires
        d.a_thread != d.b_thread,
    ensures
        d.sides(d.a_thread) == Some((d.a_approach, d.b_approach, d.b_thread)),
        d.sides(d.b_thread) == Some((d.b_approach, d.a_approach, d.a_thread)),
        d.block_for(d.a_thread) == Some(d.a_block),
        d.block_for(d.b_thread) == Some(d.b_block),
        thread != d.a_thread && thread != d.b_thread ==> d.sides(thread) is None && d.block_for(
            thread,
        ) is None,
{
}

/// A table of blocks, or of lines, is read row by row.
pub proof fn tables_are_read_row_by_row(
    blocks: Seq<(bool, &'static str)>,
    lines: Seq<(u32, char, &'static str)>,
    i: int,
)
    ensures
        blocks_of(blocks).len() == blocks.len(),
        lines_of(lines).len() == lines.len(),
        0 <= i < blocks.len() ==> blocks_of(blocks)[i].code == blocks[i].0 && blocks_of(
            blocks,
        )[i].text == blocks[i].1@,
        0 <= i < lines.len() ==> lines_of(lines)[i] == (
            lines[i].0,
            if lines[i].1 == '+' {
                Some(true)
            } else if lines[i].1 == '-' {
                Some(false)
            } else {
                None
            },
            lines[i].2@,
        ),
{
}

} // verus!
