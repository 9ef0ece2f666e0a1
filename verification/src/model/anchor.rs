//! Portable anchors.
//!
//! An anchor identifies a span of content. The hard requirement is that an
//! anchor must survive being *sent to another thread*, whose worktree has
//! diverged from the one the anchor was captured in. It therefore resolves
//! against an arbitrary snapshot, degrading gracefully when it can't.
//!
//! Never store a bare line number as the source of truth. Line ranges appear
//! here only as `captured_lines`, a hint used to bias the search. Resolution is
//! always content-first.

use std::collections::hash_map::DefaultHasher;
use std::hash::Hasher;
use std::ops::Range;

use vstd::prelude::*;
use vstd::std_specs::hash::DefaultHasherAdditionalSpecFns;

use crate::text;

verus! {

/// What kind of block an anchor points at. Anchors are block-level (a whole
/// doc-comment block, a whole list item), not character ranges.
#[derive(Clone, Copy, Debug, PartialEq, Eq, Structural)]
pub enum BlockKind {
    Paragraph,
    ListItem,
    Heading,
    CodeBlock,
    DiffHunk,
}

/// A span of content that can be re-resolved in a different snapshot.
#[derive(Debug)]
pub struct PortableAnchor {
    /// Repo-relative path, POSIX-delimited.
    pub file: String,
    pub kind: BlockKind,
    /// Hash of the anchored text at capture time. Primary identity.
    pub content_hash: u64,
    /// The anchored text itself, so an orphaned anchor can still be quoted.
    pub content: String,
    /// Lines immediately before/after at capture time, used to re-find the
    /// block when its content changed but its surroundings didn't.
    pub context_before: Vec<String>,
    pub context_after: Vec<String>,
    /// Where it was when captured. A hint for search order, never authoritative.
    pub captured_lines: Range<u32>,
    /// True when the span was auto-expanded from a caret rather than selected
    /// by hand. A loosely chosen span re-anchors more permissively than a
    /// deliberate one.
    pub auto_selected: bool,
}

/// How much of an anchor's context is still around it: `hits` of `total` lines.
#[derive(Clone, Copy, Debug, PartialEq, Eq)]
pub struct Similarity {
    pub hits: usize,
    pub total: usize,
}

/// The outcome of resolving an anchor against a snapshot. Callers must handle
/// `Orphaned` -- that is the whole point of the type.
#[derive(Debug, PartialEq)]
pub enum Resolution {
    /// Content hash matched. Same block, possibly moved.
    Exact { lines: Range<u32> },
    /// Content changed but surrounding context located it.
    Shifted { lines: Range<u32>, similarity: Similarity },
    /// Nothing matched well enough. Render as a quoted snippet with a backlink
    /// to the originating thread.
    Orphaned,
}

impl Clone for Resolution {
    fn clone(&self) -> (r: Self)
        ensures
            r == *self,
    {
        match self {
            Resolution::Exact { lines } => Resolution::Exact { lines: lines.start..lines.end },
            Resolution::Shifted { lines, similarity } => Resolution::Shifted {
                lines: lines.start..lines.end,
                similarity: *similarity,
            },
            Resolution::Orphaned => Resolution::Orphaned,
        }
    }
}

impl Resolution {
    /// The lines the anchor landed on, if it landed.
    pub open spec fn spec_lines(self) -> Option<Range<u32>> {
        match self {
            Resolution::Exact { lines } => Some(lines),
            Resolution::Shifted { lines, .. } => Some(lines),
            Resolution::Orphaned => None,
        }
    }

    pub fn lines(&self) -> (r: Option<Range<u32>>)
        ensures
            r == self.spec_lines(),
    {
        match self {
            Resolution::Exact { lines } => Some(lines.start..lines.end),
            Resolution::Shifted { lines, .. } => Some(lines.start..lines.end),
            Resolution::Orphaned => None,
        }
    }

    pub fn is_orphaned(&self) -> (r: bool)
        ensures
            r == (*self is Orphaned),
    {
        match self {
            Resolution::Orphaned => true,
            _ => false,
        }
    }
}

// ---------------------------------------------------------------- hashing --

/// The words of a text with one space between neighbours.
pub open spec fn reflowed(s: Seq<char>) -> Seq<char> {
    text::joined(text::words(s), seq![' '])
}

/// The hash that identifies a text: the default hasher fed with the bytes of
/// its reflowed form and the byte that closes a string.
pub open spec fn digest(s: Seq<char>) -> u64 {
    DefaultHasher::spec_finish(seq![vstd::utf8::encode_utf8(reflowed(s)), seq![0xFFu8]])
}

/// White-space-insensitive, so reformatting doesn't orphan every anchor.
pub fn hash_content(text: &str) -> (r: u64)
    ensures
        r == digest(text@),
{
    let words = text::split_words(text);
    let mut space = String::new();
    space.push(' ');
    assert(space@ =~= seq![' ']);
    let normalized = text::join(&words, space.as_str());
    let mut hasher = DefaultHasher::new();
    hasher.write(normalized.as_str().as_bytes());
    let close: [u8; 1] = [0xFF];
    hasher.write(&close);
    assert(close@ =~= seq![0xFFu8]);
    assert(hasher@ =~= seq![vstd::utf8::encode_utf8(reflowed(text@)), seq![0xFFu8]]);
    hasher.finish()
}

/// How a text is spaced and broken into lines does not enter its hash.
pub proof fn hashing_ignores_reformatting(
    a: Seq<char>,
    gap: Seq<char>,
    other_gap: Seq<char>,
    b: Seq<char>,
)
    requires
        gap.len() > 0 && text::blank(gap),
        other_gap.len() > 0 && text::blank(other_gap),
    ensures
        digest(a + gap + b) == digest(a + other_gap + b),
{
    text::words_around_a_gap(a, gap, b);
    text::words_around_a_gap(a, other_gap, b);
}

// -------------------------------------------------------------- snapshots --

/// A file as it exists in one thread's worktree. Anchors resolve against this.
#[derive(Debug)]
pub struct Snapshot {
    pub file: String,
    pub lines: Vec<String>,
}

/// A snapshot's path and its lines.
#[verifier::ext_equal]
pub ghost struct SnapshotModel {
    pub file: Seq<char>,
    pub lines: Seq<Seq<char>>,
}

impl DeepView for Snapshot {
    type V = SnapshotModel;

    open spec fn deep_view(&self) -> SnapshotModel {
        SnapshotModel { file: self.file@, lines: self.lines.deep_view() }
    }
}

/// `n`, or `len` where that is less.
pub open spec fn clamp(n: int, len: int) -> int {
    if n <= len {
        n
    } else {
        len
    }
}

impl SnapshotModel {
    /// The lines `start..end`, as far as they exist.
    pub open spec fn block(self, start: int, end: int) -> Seq<Seq<char>> {
        let len = self.lines.len() as int;
        self.lines.subrange(clamp(start, len), clamp(end, len))
    }

    /// The text of the lines `start..end`, as far as they exist.
    pub open spec fn slice(self, start: int, end: int) -> Seq<char> {
        text::joined(self.block(start, end), seq!['\n'])
    }
}

fn clamp_index(n: u32, len: usize) -> (r: usize)
    ensures
        r == clamp(n as int, len as int),
{
    if (n as u64) <= (len as u64) {
        n as usize
    } else {
        len
    }
}

impl Snapshot {
    pub fn new(file: &str, text: &str) -> (r: Self)
        ensures
            r.deep_view() == (SnapshotModel { file: file@, lines: text::lines(text@) }),
    {
        Self { file: file.to_owned(), lines: text::split_lines(text) }
    }

    pub fn slice(&self, range: &Range<u32>) -> (r: String)
        requires
            clamp(range.start as int, self.lines.len() as int) <= clamp(
                range.end as int,
                self.lines.len() as int,
            ),
        ensures
            r@ == self.deep_view().slice(range.start as int, range.end as int),
    {
        let start = clamp_index(range.start, self.lines.len());
        let end = clamp_index(range.end, self.lines.len());
        let mut newline = String::new();
        newline.push('\n');
        assert(newline@ =~= seq!['\n']);
        text::join_range(&self.lines, start, end, newline.as_str())
    }
}

// ---------------------------------------------------------------- anchors --

/// How many lines of context an anchor keeps on either side.
pub const CONTEXT: usize = 3;

/// An anchor with its texts as sequences of characters.
#[verifier::ext_equal]
pub ghost struct AnchorModel {
    pub file: Seq<char>,
    pub kind: BlockKind,
    pub content_hash: u64,
    pub content: Seq<char>,
    pub context_before: Seq<Seq<char>>,
    pub context_after: Seq<Seq<char>>,
    pub captured_lines: Range<u32>,
    pub auto_selected: bool,
}

impl DeepView for PortableAnchor {
    type V = AnchorModel;

    open spec fn deep_view(&self) -> AnchorModel {
        AnchorModel {
            file: self.file@,
            kind: self.kind,
            content_hash: self.content_hash,
            content: self.content@,
            context_before: self.context_before.deep_view(),
            context_after: self.context_after.deep_view(),
            captured_lines: self.captured_lines,
            auto_selected: self.auto_selected,
        }
    }
}

/// The lines `from..to`, copied.
fn copy_lines(lines: &Vec<String>, from: usize, to: usize) -> (r: Vec<String>)
    requires
        from <= to <= lines.len(),
    ensures
        r.deep_view() == lines.deep_view().subrange(from as int, to as int),
{
    let mut out: Vec<String> = Vec::new();
    let mut i: usize = from;
    while i < to
        invariant
            from <= i <= to <= lines.len(),
            out.deep_view() == lines.deep_view().subrange(from as int, i as int),
        decreases to - i,
    {
        let ghost before = out.deep_view();
        out.push(lines[i].clone());
        assert(out.deep_view() =~= before.push(lines@[i as int]@));
        i += 1;
        assert(lines.deep_view().subrange(from as int, i as int) =~= before.push(
            lines@[i - 1]@,
        ));
    }
    out
}

impl Clone for PortableAnchor {
    fn clone(&self) -> (r: Self)
        ensures
            r.deep_view() == self.deep_view(),
    {
        let r = PortableAnchor {
            file: self.file.clone(),
            kind: self.kind,
            content_hash: self.content_hash,
            content: self.content.clone(),
            context_before: copy_lines(&self.context_before, 0, self.context_before.len()),
            context_after: copy_lines(&self.context_after, 0, self.context_after.len()),
            captured_lines: self.captured_lines.start..self.captured_lines.end,
            auto_selected: self.auto_selected,
        };
        assert(r.deep_view() =~= self.deep_view());
        r
    }
}

fn same_lines(a: &Vec<String>, b: &Vec<String>) -> (r: bool)
    ensures
        r == (a.deep_view() == b.deep_view()),
{
    if a.len() != b.len() {
        assert(a.deep_view().len() != b.deep_view().len());
        return false;
    }
    let mut i: usize = 0;
    while i < a.len()
        invariant
            a.len() == b.len(),
            i <= a.len(),
            forall|k: int|
                0 <= k < i ==> #[trigger] a.deep_view()[k] == b.deep_view()[k],
        decreases a.len() - i,
    {
        assert(a.deep_view()[i as int] == a@[i as int]@);
        assert(b.deep_view()[i as int] == b@[i as int]@);
        if !text::same_text(a[i].as_str(), b[i].as_str()) {
            return false;
        }
        i += 1;
    }
    assert(a.deep_view() =~= b.deep_view());
    true
}

/// Whether two anchors are the same anchor.
pub fn same_anchor(a: &PortableAnchor, b: &PortableAnchor) -> (r: bool)
    ensures
        r == (a.deep_view() == b.deep_view()),
{
    text::same_text(a.file.as_str(), b.file.as_str()) && a.kind == b.kind && a.content_hash
        == b.content_hash && text::same_text(a.content.as_str(), b.content.as_str()) && same_lines(
        &a.context_before,
        &b.context_before,
    ) && same_lines(&a.context_after, &b.context_after) && a.captured_lines.start
        == b.captured_lines.start && a.captured_lines.end == b.captured_lines.end
        && a.auto_selected == b.auto_selected
}

/// The anchor for the lines of a snapshot, with up to [`CONTEXT`] lines of
/// context on either side.
pub open spec fn captured(
    snapshot: SnapshotModel,
    kind: BlockKind,
    lines: Range<u32>,
    auto_selected: bool,
) -> AnchorModel {
    let start = clamp(lines.start as int, snapshot.lines.len() as int);
    let end = clamp(lines.end as int, snapshot.lines.len() as int);
    let content = snapshot.slice(lines.start as int, lines.end as int);
    AnchorModel {
        file: snapshot.file,
        kind,
        content_hash: digest(content),
        content,
        context_before: snapshot.lines.subrange(
            if start >= CONTEXT {
                start - CONTEXT
            } else {
                0
            },
            start,
        ),
        context_after: snapshot.lines.subrange(
            end,
            clamp(end + CONTEXT, snapshot.lines.len() as int),
        ),
        captured_lines: lines,
        auto_selected,
    }
}

/// A captured anchor can be resolved.
pub proof fn lemma_captured_is_well_formed(
    snapshot: SnapshotModel,
    kind: BlockKind,
    lines: Range<u32>,
    auto_selected: bool,
)
    requires
        lines.start <= lines.end,
    ensures
        captured(snapshot, kind, lines, auto_selected).well_formed(),
{
}

impl AnchorModel {
    /// Its range runs forwards and its context can be counted.
    pub open spec fn well_formed(self) -> bool {
        &&& self.captured_lines.start <= self.captured_lines.end
        &&& self.context_total() <= usize::MAX
    }

    /// How many lines the span it looks for has.
    pub open spec fn span(self) -> int {
        if self.captured_lines.end > self.captured_lines.start {
            self.captured_lines.end - self.captured_lines.start
        } else {
            1
        }
    }

    /// How many lines of context it carries.
    pub open spec fn context_total(self) -> nat {
        self.context_before.len() + self.context_after.len()
    }

    /// At how many places of `snapshot` its span fits: at lines `0`, `1`, ...
    /// up to this many. Line numbers are `u32`, so no place lies beyond them.
    pub open spec fn places(self, snapshot: SnapshotModel) -> int {
        let len = clamp(snapshot.lines.len() as int, u32::MAX as int);
        if len >= self.span() {
            len - self.span() + 1
        } else {
            0
        }
    }

    /// Whether `snapshot` holds the anchored content at line `start`.
    pub open spec fn matches_at(self, snapshot: SnapshotModel, start: int) -> bool {
        digest(snapshot.slice(start, start + self.span())) == self.content_hash
    }

    /// The first place from `from` on, before place `to`, with the anchored
    /// content.
    pub open spec fn first_match(self, snapshot: SnapshotModel, from: int, to: int) -> Option<int>
        decreases to - from,
    {
        if from >= to {
            None
        } else if self.matches_at(snapshot, from) {
            Some(from)
        } else {
            self.first_match(snapshot, from + 1, to)
        }
    }

    /// Whether the `i`th context line before the block, counting away from it,
    /// stands at that distance before line `start`.
    pub open spec fn hit_before(self, snapshot: SnapshotModel, start: int, i: int) -> bool {
        let at = start - 1 - i;
        &&& 0 <= at < snapshot.lines.len()
        &&& text::trimmed(snapshot.lines[at]) == text::trimmed(
            self.context_before[self.context_before.len() - 1 - i],
        )
    }

    /// Whether the `i`th context line after the block stands at that distance
    /// behind a block that starts at line `start`.
    pub open spec fn hit_after(self, snapshot: SnapshotModel, start: int, i: int) -> bool {
        let at = start + self.span() + i;
        &&& at < snapshot.lines.len()
        &&& text::trimmed(snapshot.lines[at]) == text::trimmed(self.context_after[i])
    }

    /// How many of the nearest `n` context lines before are hits.
    pub open spec fn hits_before(self, snapshot: SnapshotModel, start: int, n: int) -> nat
        decreases n,
    {
        if n <= 0 {
            0
        } else {
            self.hits_before(snapshot, start, n - 1) + if self.hit_before(snapshot, start, n - 1) {
                1nat
            } else {
                0
            }
        }
    }

    /// How many of the nearest `n` context lines after are hits.
    pub open spec fn hits_after(self, snapshot: SnapshotModel, start: int, n: int) -> nat
        decreases n,
    {
        if n <= 0 {
            0
        } else {
            self.hits_after(snapshot, start, n - 1) + if self.hit_after(snapshot, start, n - 1) {
                1nat
            } else {
                0
            }
        }
    }

    /// How many captured context lines are still present around a block that
    /// starts at line `start`.
    pub open spec fn hits(self, snapshot: SnapshotModel, start: int) -> nat {
        self.hits_before(snapshot, start, self.context_before.len() as int) + self.hits_after(
            snapshot,
            start,
            self.context_after.len() as int,
        )
    }

    /// Whether `hits` context lines are enough to land on. A hand-selected span
    /// demands three in five, an auto-expanded one two in five.
    pub open spec fn enough(self, hits: nat) -> bool {
        &&& self.context_total() > 0
        &&& 5 * hits >= (if self.auto_selected {
            2nat
        } else {
            3nat
        }) * self.context_total()
    }

    /// The first of the places `0..n` with the most hits.
    pub open spec fn best_place(self, snapshot: SnapshotModel, n: int) -> int
        decreases n,
    {
        if n <= 1 {
            0
        } else {
            let best = self.best_place(snapshot, n - 1);
            if self.hits(snapshot, n - 1) > self.hits(snapshot, best) {
                n - 1
            } else {
                best
            }
        }
    }

    /// The lines of this anchor's span from line `start` on.
    pub open spec fn span_at(self, start: int) -> Range<u32> {
        Range { start: start as u32, end: (start + self.span()) as u32 }
    }

    /// Where the context, if enough of it is left, puts the anchor.
    pub open spec fn resolved_by_context(self, snapshot: SnapshotModel) -> Resolution {
        let best = self.best_place(snapshot, self.places(snapshot));
        let hits = self.hits(snapshot, best);
        if self.places(snapshot) > 0 && self.enough(hits) {
            Resolution::Shifted {
                lines: self.span_at(best),
                similarity: Similarity {
                    hits: hits as usize,
                    total: self.context_total() as usize,
                },
            }
        } else {
            Resolution::Orphaned
        }
    }

    /// Where the anchor lands in `snapshot`: never in another file; where it
    /// was if the content is still there; else at the first place that holds
    /// the content; else where most of its context is, if that is enough.
    pub open spec fn resolved(self, snapshot: SnapshotModel) -> Resolution {
        if snapshot.file != self.file {
            Resolution::Orphaned
        } else if digest(
            snapshot.slice(self.captured_lines.start as int, self.captured_lines.end as int),
        ) == self.content_hash {
            Resolution::Exact { lines: self.captured_lines }
        } else {
            match self.first_match(snapshot, 0, self.places(snapshot)) {
                Some(start) => Resolution::Exact { lines: self.span_at(start) },
                None => self.resolved_by_context(snapshot),
            }
        }
    }
}

impl PortableAnchor {
    /// Capture an anchor from a snapshot.
    ///
    /// The range may have come from another worktree's line numbers, so it need
    /// not be in bounds for *this* snapshot; what lies outside is left out.
    pub fn capture(
        snapshot: &Snapshot,
        kind: BlockKind,
        lines: Range<u32>,
        auto_selected: bool,
    ) -> (r: Self)
        requires
            clamp(lines.start as int, snapshot.lines.len() as int) <= clamp(
                lines.end as int,
                snapshot.lines.len() as int,
            ),
        ensures
            r.deep_view() == captured(snapshot.deep_view(), kind, lines, auto_selected),
    {
        let content = snapshot.slice(&lines);
        let len = snapshot.lines.len();
        let start = clamp_index(lines.start, len);
        let end = clamp_index(lines.end, len);
        let before_start: usize = if start >= CONTEXT {
            start - CONTEXT
        } else {
            0
        };
        let after_end: usize = if len - end >= CONTEXT {
            end + CONTEXT
        } else {
            len
        };
        let r = Self {
            file: snapshot.file.clone(),
            kind,
            content_hash: hash_content(content.as_str()),
            content,
            context_before: copy_lines(&snapshot.lines, before_start, start),
            context_after: copy_lines(&snapshot.lines, end, after_end),
            captured_lines: lines,
            auto_selected,
        };
        assert(r.deep_view() =~= captured(snapshot.deep_view(), kind, lines, auto_selected));
        r
    }

    /// Re-resolve this anchor against a (possibly divergent) snapshot.
    ///
    /// Strategy, in order:
    ///   1. exact content hash at the captured position (cheap, common case)
    ///   2. exact content hash anywhere in the file (block moved)
    ///   3. context match (block edited, neighbours intact)
    ///   4. give up -> Orphaned
    pub fn resolve(&self, snapshot: &Snapshot) -> (r: Resolution)
        requires
            snapshot.deep_view().file == self.deep_view().file ==> self.deep_view().well_formed(),
        ensures
            r == self.deep_view().resolved(snapshot.deep_view()),
            lands(
                self.deep_view(),
                snapshot.deep_view(),
                lines_anchored(self.deep_view()),
                r,
            ),
    {
        let ghost a = self.deep_view();
        let ghost s = snapshot.deep_view();
        if !text::same_text(snapshot.file.as_str(), self.file.as_str()) {
            return Resolution::Orphaned;
        }
        proof {
            an_anchor_lands_where_the_file_shows_it(a, s);
        }
        // 1. same place, same content
        if hash_content(snapshot.slice(&self.captured_lines).as_str()) == self.content_hash {
            return Resolution::Exact {
                lines: self.captured_lines.start..self.captured_lines.end,
            };
        }
        let places = self.count_places(snapshot);
        // 2. same content, moved
        if let Some(start) = self.find_content(snapshot, places) {
            return Resolution::Exact { lines: start..start + self.span() };
        }
        // 3. content drifted; locate by surrounding context
        self.find_context(snapshot, places)
    }

    fn span(&self) -> (r: u32)
        requires
            self.captured_lines.start <= self.captured_lines.end,
        ensures
            r == self.deep_view().span(),
    {
        let n = self.captured_lines.end - self.captured_lines.start;
        if n > 1 {
            n
        } else {
            1
        }
    }

    fn count_places(&self, snapshot: &Snapshot) -> (r: u32)
        requires
            self.captured_lines.start <= self.captured_lines.end,
        ensures
            r == self.deep_view().places(snapshot.deep_view()),
    {
        let span = self.span();
        let len: u32 = if snapshot.lines.len() as u64 <= u32::MAX as u64 {
            snapshot.lines.len() as u32
        } else {
            u32::MAX
        };
        if len >= span {
            len - span + 1
        } else {
            0
        }
    }

    fn find_content(&self, snapshot: &Snapshot, places: u32) -> (r: Option<u32>)
        requires
            self.deep_view().well_formed(),
            places == self.deep_view().places(snapshot.deep_view()),
        ensures
            match r {
                Some(start) => start < places && self.deep_view().first_match(
                    snapshot.deep_view(),
                    0,
                    places as int,
                ) == Some(start as int),
                None => self.deep_view().first_match(snapshot.deep_view(), 0, places as int)
                    is None,
            },
    {
        let ghost a = self.deep_view();
        let ghost s = snapshot.deep_view();
        let span = self.span();
        let mut start: u32 = 0;
        while start < places
            invariant
                a == self.deep_view(),
                s == snapshot.deep_view(),
                places == a.places(s),
                span == a.span(),
                start <= places,
                a.first_match(s, 0, places as int) == a.first_match(
                    s,
                    start as int,
                    places as int,
                ),
            decreases places - start,
        {
            let range = start..start + span;
            if hash_content(snapshot.slice(&range).as_str()) == self.content_hash {
                return Some(start);
            }
            start += 1;
        }
        None
    }

    fn find_context(&self, snapshot: &Snapshot, places: u32) -> (r: Resolution)
        requires
            self.deep_view().well_formed(),
            places == self.deep_view().places(snapshot.deep_view()),
        ensures
            r == self.deep_view().resolved_by_context(snapshot.deep_view()),
    {
        let ghost a = self.deep_view();
        let ghost s = snapshot.deep_view();
        let span = self.span();
        if places == 0 {
            return Resolution::Orphaned;
        }
        let mut best: u32 = 0;
        let mut best_hits = self.context_score(snapshot, 0);
        let mut start: u32 = 1;
        while start < places
            invariant
                a == self.deep_view(),
                s == snapshot.deep_view(),
                a.well_formed(),
                places == a.places(s),
                1 <= start <= places,
                best < start,
                best == a.best_place(s, start as int),
                best_hits == a.hits(s, best as int),
            decreases places - start,
        {
            let hits = self.context_score(snapshot, start);
            if hits > best_hits {
                best = start;
                best_hits = hits;
            }
            start += 1;
        }
        let total = self.context_before.len() + self.context_after.len();
        let wanted: u128 = if self.auto_selected {
            2
        } else {
            3
        };
        assert(wanted * total <= 3 * total) by (nonlinear_arith)
            requires
                wanted <= 3,
        ;
        // A hand-selected span demands a stronger match than an auto-expanded one.
        if total > 0 && 5 * (best_hits as u128) >= wanted * (total as u128) {
            Resolution::Shifted {
                lines: best..best + span,
                similarity: Similarity { hits: best_hits, total },
            }
        } else {
            Resolution::Orphaned
        }
    }

    /// How many captured context lines are still present around the block that
    /// starts at `start`.
    fn context_score(&self, snapshot: &Snapshot, start: u32) -> (r: usize)
        requires
            self.deep_view().well_formed(),
            start < self.deep_view().places(snapshot.deep_view()),
        ensures
            r == self.deep_view().hits(snapshot.deep_view(), start as int),
            r == standing(
                self.deep_view(),
                snapshot.deep_view().lines,
                start as int,
                start + lines_anchored(self.deep_view()),
            ),
            r <= self.deep_view().context_total(),
    {
        let ghost a = self.deep_view();
        let ghost s = snapshot.deep_view();
        let len = snapshot.lines.len();
        let end: usize = start as usize + self.span() as usize;
        let mut hits: usize = 0;
        let before = self.context_before.len();
        let mut i: usize = 0;
        while i < before
            invariant
                a == self.deep_view(),
                s == snapshot.deep_view(),
                a.well_formed(),
                before == self.context_before.len(),
                len == snapshot.lines.len(),
                i <= before,
                hits == a.hits_before(s, start as int, i as int),
                hits <= i,
            decreases before - i,
        {
            if i < start as usize && start as usize - 1 - i < len {
                let line = text::trim(snapshot.lines[start as usize - 1 - i].as_str());
                let context = text::trim(self.context_before[before - 1 - i].as_str());
                if text::same_text(line.as_str(), context.as_str()) {
                    hits += 1;
                }
            }
            i += 1;
        }
        let after = self.context_after.len();
        let ghost hits_before = hits;
        i = 0;
        while i < after
            invariant
                a == self.deep_view(),
                s == snapshot.deep_view(),
                a.well_formed(),
                before == self.context_before.len(),
                after == self.context_after.len(),
                len == snapshot.lines.len(),
                end == start + a.span(),
                end <= len,
                i <= after,
                hits_before <= before,
                hits == hits_before + a.hits_after(s, start as int, i as int),
                hits <= before + i,
            decreases after - i,
        {
            if i < len - end {
                let line = text::trim(snapshot.lines[end + i].as_str());
                let context = text::trim(self.context_after[i].as_str());
                if text::same_text(line.as_str(), context.as_str()) {
                    hits += 1;
                }
            }
            i += 1;
        }
        proof {
            each_context_line_counts_for_itself(a, s, start as int);
        }
        hits
    }
}

// ------------------------------------------------------------------- laws --

/// An anchor resolves, exactly and in place, in the snapshot it was taken from.
pub proof fn an_anchor_resolves_in_its_own_snapshot(
    snapshot: SnapshotModel,
    kind: BlockKind,
    lines: Range<u32>,
    auto_selected: bool,
)
    ensures
        captured(snapshot, kind, lines, auto_selected).resolved(snapshot) == (Resolution::Exact {
            lines,
        }),
{
}

/// An anchor never resolves in another file.
pub proof fn an_anchor_never_resolves_across_files(a: AnchorModel, snapshot: SnapshotModel)
    requires
        snapshot.file != a.file,
    ensures
        a.resolved(snapshot) is Orphaned,
{
}

proof fn lemma_first_match(a: AnchorModel, s: SnapshotModel, from: int, to: int)
    requires
        from <= to,
    ensures
        match a.first_match(s, from, to) {
            Some(i) => from <= i < to && a.matches_at(s, i) && forall|k: int|
                from <= k < i ==> !#[trigger] a.matches_at(s, k),
            None => forall|k: int| from <= k < to ==> !#[trigger] a.matches_at(s, k),
        },
    decreases to - from,
{
    if from < to && !a.matches_at(s, from) {
        lemma_first_match(a, s, from + 1, to);
    }
}

/// A span that another worktree only moved is followed: wherever the anchored
/// lines stand in that snapshot of the file, the anchor resolves exactly.
pub proof fn an_anchor_follows_a_block_that_moved(
    from: SnapshotModel,
    kind: BlockKind,
    lines: Range<u32>,
    auto_selected: bool,
    to: SnapshotModel,
    at: int,
)
    requires
        lines.start < lines.end <= from.lines.len(),
        to.file == from.file,
        0 <= at,
        at + (lines.end - lines.start) <= to.lines.len(),
        at + (lines.end - lines.start) <= u32::MAX,
        to.lines.subrange(at, at + (lines.end - lines.start)) == from.lines.subrange(
            lines.start as int,
            lines.end as int,
        ),
    ensures
        captured(from, kind, lines, auto_selected).resolved(to) is Exact,
{
    let a = captured(from, kind, lines, auto_selected);
    assert(a.matches_at(to, at));
    lemma_first_match(a, to, 0, a.places(to));
}

/// An exact resolution names lines that hold the anchored content.
pub proof fn exact_means_the_content_is_there(
    a: AnchorModel,
    snapshot: SnapshotModel,
    lines: Range<u32>,
)
    requires
        a.well_formed(),
        a.resolved(snapshot) == (Resolution::Exact { lines }),
    ensures
        digest(snapshot.slice(lines.start as int, lines.end as int)) == a.content_hash,
        snapshot.file == a.file,
        lines == a.captured_lines || lines.end - lines.start == a.span() && lines.end
            <= snapshot.lines.len(),
{
    lemma_first_match(a, snapshot, 0, a.places(snapshot));
}

proof fn lemma_best_place(a: AnchorModel, s: SnapshotModel, n: int)
    requires
        0 < n,
    ensures
        0 <= a.best_place(s, n) < n,
        forall|k: int| 0 <= k < n ==> #[trigger] a.hits(s, k) <= a.hits(s, a.best_place(s, n)),
        forall|k: int|
            0 <= k < a.best_place(s, n) ==> #[trigger] a.hits(s, k) < a.hits(
                s,
                a.best_place(s, n),
            ),
    decreases n,
{
    if n > 1 {
        lemma_best_place(a, s, n - 1);
    }
}

/// A shifted resolution is the first of the places with the most context, in a
/// file that holds the content nowhere.
pub proof fn shifted_means_the_context_is_there(
    a: AnchorModel,
    snapshot: SnapshotModel,
    lines: Range<u32>,
    similarity: Similarity,
)
    requires
        a.well_formed(),
        a.resolved(snapshot) == (Resolution::Shifted { lines, similarity }),
    ensures
        snapshot.file == a.file,
        lines.end - lines.start == a.span(),
        lines.end <= snapshot.lines.len(),
        a.enough(a.hits(snapshot, lines.start as int)),
        forall|k: int| 0 <= k < a.places(snapshot) ==> !#[trigger] a.matches_at(snapshot, k),
        forall|k: int|
            0 <= k < a.places(snapshot) ==> #[trigger] a.hits(snapshot, k) <= a.hits(
                snapshot,
                lines.start as int,
            ),
        forall|k: int|
            0 <= k < lines.start ==> #[trigger] a.hits(snapshot, k) < a.hits(
                snapshot,
                lines.start as int,
            ),
{
    lemma_first_match(a, snapshot, 0, a.places(snapshot));
    lemma_best_place(a, snapshot, a.places(snapshot));
}

/// An anchor orphans rather than guess: exactly when the file is another one,
/// or the content is neither in place nor anywhere else and no place has
/// enough of the context.
pub proof fn orphaned_means_nothing_matched(a: AnchorModel, snapshot: SnapshotModel)
    requires
        a.well_formed(),
    ensures
        a.resolved(snapshot) is Orphaned <==> {
            ||| snapshot.file != a.file
            ||| {
                &&& digest(
                    snapshot.slice(a.captured_lines.start as int, a.captured_lines.end as int),
                ) != a.content_hash
                &&& forall|k: int|
                    0 <= k < a.places(snapshot) ==> !#[trigger] a.matches_at(snapshot, k)
                &&& forall|k: int|
                    0 <= k < a.places(snapshot) ==> !a.enough(#[trigger] a.hits(snapshot, k))
            }
        },
{
    lemma_first_match(a, snapshot, 0, a.places(snapshot));
    let n = a.places(snapshot);
    if n > 0 {
        lemma_best_place(a, snapshot, n);
        let best = a.best_place(snapshot, n);
        assert forall|k: int| 0 <= k < n && a.enough(#[trigger] a.hits(snapshot, k)) implies a.enough(
            a.hits(snapshot, best),
        ) by {}
        assert(a.hits(snapshot, best) >= 0);
    }
}

proof fn lemma_same_search(a: AnchorModel, b: AnchorModel, s: SnapshotModel, from: int, to: int)
    requires
        b == (AnchorModel { auto_selected: b.auto_selected, ..a }),
    ensures
        a.first_match(s, from, to) == b.first_match(s, from, to),
    decreases to - from,
{
    if from < to {
        lemma_same_search(a, b, s, from + 1, to);
    }
}

proof fn lemma_same_hits(a: AnchorModel, b: AnchorModel, s: SnapshotModel, start: int, n: int)
    requires
        b == (AnchorModel { auto_selected: b.auto_selected, ..a }),
    ensures
        a.hits_before(s, start, n) == b.hits_before(s, start, n),
        a.hits_after(s, start, n) == b.hits_after(s, start, n),
    decreases n,
{
    if n > 0 {
        lemma_same_hits(a, b, s, start, n - 1);
    }
}

proof fn lemma_same_best(a: AnchorModel, b: AnchorModel, s: SnapshotModel, n: int)
    requires
        b == (AnchorModel { auto_selected: b.auto_selected, ..a }),
    ensures
        a.best_place(s, n) == b.best_place(s, n),
        a.hits(s, a.best_place(s, n)) == b.hits(s, b.best_place(s, n)),
    decreases n,
{
    if n > 1 {
        lemma_same_best(a, b, s, n - 1);
        lemma_same_hits(a, b, s, n - 1, a.context_before.len() as int);
        lemma_same_hits(a, b, s, n - 1, a.context_after.len() as int);
    }
    lemma_same_hits(a, b, s, a.best_place(s, n), a.context_before.len() as int);
    lemma_same_hits(a, b, s, a.best_place(s, n), a.context_after.len() as int);
}

/// A loosely chosen span re-anchors at least as permissively as a deliberate
/// one: wherever the hand-selected anchor lands, the auto-expanded one lands
/// too, in the same way.
pub proof fn auto_selected_spans_land_wherever_deliberate_ones_do(
    deliberate: AnchorModel,
    snapshot: SnapshotModel,
)
    requires
        !deliberate.auto_selected,
        !(deliberate.resolved(snapshot) is Orphaned),
    ensures
        (AnchorModel { auto_selected: true, ..deliberate }).resolved(snapshot)
            == deliberate.resolved(snapshot),
{
    let loose = AnchorModel { auto_selected: true, ..deliberate };
    lemma_same_search(deliberate, loose, snapshot, 0, deliberate.places(snapshot));
    lemma_same_best(deliberate, loose, snapshot, deliberate.places(snapshot));
    assert(2 * deliberate.context_total() <= 3 * deliberate.context_total());
}

/// The context lines above a block that starts at line `start` which still stand
/// there, by their index.
pub open spec fn still_above(
    above: Seq<Seq<char>>,
    lines: Seq<Seq<char>>,
    start: int,
) -> Set<int> {
    Set::new(
        |i: int|
            {
                &&& 0 <= i < above.len()
                &&& 0 <= start - above.len() + i < lines.len()
                &&& text::trimmed(lines[start - above.len() + i]) == text::trimmed(above[i])
            },
    )
}

/// The context lines below a block that ends before line `end` which still stand
/// there, by their index.
pub open spec fn still_below(
    below: Seq<Seq<char>>,
    lines: Seq<Seq<char>>,
    end: int,
) -> Set<int> {
    Set::new(
        |i: int|
            {
                &&& 0 <= i < below.len()
                &&& 0 <= end + i < lines.len()
                &&& text::trimmed(lines[end + i]) == text::trimmed(below[i])
            },
    )
}

proof fn lemma_range_part(s: Set<int>, lo: int, hi: int)
    requires
        lo <= hi,
        forall|i: int| #[trigger] s.contains(i) ==> lo <= i < hi,
    ensures
        s.finite(),
        s.len() <= hi - lo,
{
    vstd::set_lib::lemma_int_range(lo, hi);
    let all = vstd::set_lib::set_int_range(lo, hi);
    assert(s.subset_of(all));
    vstd::set_lib::lemma_set_subset_finite(all, s);
    vstd::set_lib::lemma_len_subset(s, all);
}

proof fn lemma_above_counted(a: AnchorModel, s: SnapshotModel, start: int, n: int)
    requires
        0 <= n <= a.context_before.len(),
    ensures
        ({
            let len = a.context_before.len() as int;
            let part = still_above(a.context_before, s.lines, start).filter(|i: int| len - n <= i);
            part.finite() && a.hits_before(s, start, n) == part.len()
        }),
    decreases n,
{
    let len = a.context_before.len() as int;
    let all = still_above(a.context_before, s.lines, start);
    lemma_range_part(all, 0, len);
    let part = all.filter(|i: int| len - n <= i);
    lemma_range_part(part, 0, len);
    if n == 0 {
        assert(part =~= Set::<int>::empty());
    } else {
        lemma_above_counted(a, s, start, n - 1);
        let fewer = all.filter(|i: int| len - (n - 1) <= i);
        lemma_range_part(fewer, 0, len);
        assert(start - len + (len - n) == start - 1 - (n - 1));
        if a.hit_before(s, start, n - 1) {
            assert(part =~= fewer.insert(len - n));
        } else {
            assert(part =~= fewer);
        }
    }
}

proof fn lemma_below_counted(a: AnchorModel, s: SnapshotModel, start: int, n: int)
    requires
        0 <= start,
        0 <= n <= a.context_after.len(),
    ensures
        ({
            let part = still_below(a.context_after, s.lines, start + a.span()).filter(
                |i: int| i < n,
            );
            part.finite() && a.hits_after(s, start, n) == part.len()
        }),
    decreases n,
{
    let len = a.context_after.len() as int;
    let all = still_below(a.context_after, s.lines, start + a.span());
    lemma_range_part(all, 0, len);
    let part = all.filter(|i: int| i < n);
    lemma_range_part(part, 0, len);
    if n == 0 {
        assert(part =~= Set::<int>::empty());
    } else {
        lemma_below_counted(a, s, start, n - 1);
        let fewer = all.filter(|i: int| i < n - 1);
        lemma_range_part(fewer, 0, len);
        if a.hit_after(s, start, n - 1) {
            assert(part =~= fewer.insert(n - 1));
        } else {
            assert(part =~= fewer);
        }
    }
}

/// How many lines of an anchor's context still stand around a block is how many
/// of them, each looked at for itself, are at their distance from it.
pub proof fn each_context_line_counts_for_itself(a: AnchorModel, s: SnapshotModel, start: int)
    requires
        0 <= start,
    ensures
        ({
            let above = still_above(a.context_before, s.lines, start);
            let below = still_below(a.context_after, s.lines, start + a.span());
            &&& above.finite() && below.finite()
            &&& a.hits(s, start) == above.len() + below.len()
            &&& above.len() <= a.context_before.len()
            &&& below.len() <= a.context_after.len()
        }),
{
    let len = a.context_before.len() as int;
    let above = still_above(a.context_before, s.lines, start);
    let below = still_below(a.context_after, s.lines, start + a.span());
    lemma_range_part(above, 0, len);
    lemma_range_part(below, 0, a.context_after.len() as int);
    lemma_above_counted(a, s, start, len);
    lemma_below_counted(a, s, start, a.context_after.len() as int);
    assert(above.filter(|i: int| len - len <= i) =~= above);
    assert(below.filter(|i: int| i < a.context_after.len() as int) =~= below);
}

/// How much context still stands around the lines `start..end`.
pub open spec fn standing(a: AnchorModel, lines: Seq<Seq<char>>, start: int, end: int) -> nat {
    still_above(a.context_before, lines, start).len() + still_below(
        a.context_after,
        lines,
        end,
    ).len()
}

/// Whether the lines `start..end` have the hash of the anchored content.
pub open spec fn holds_content(
    a: AnchorModel,
    lines: Seq<Seq<char>>,
    start: int,
    end: int,
) -> bool {
    digest(text::joined(lines.subrange(start, end), seq!['\n'])) == a.content_hash
}

/// Whether `r` is where an anchor of `n` lines lands, by what the file holds: in place if
/// the content is still there; else at the first lines, as many as were anchored, that
/// hold it; else at the first lines around which most of the context stands, if that is
/// three lines in five, or two for a loosely chosen span; else nowhere, and never in
/// another file.
pub open spec fn lands(a: AnchorModel, s: SnapshotModel, n: int, r: Resolution) -> bool {
    let len = if s.lines.len() <= u32::MAX {
        s.lines.len() as int
    } else {
        u32::MAX as int
    };
    let total = a.context_before.len() + a.context_after.len();
    let wanted = if a.auto_selected {
        2int
    } else {
        3int
    };
    let start = if a.captured_lines.start <= s.lines.len() {
        a.captured_lines.start as int
    } else {
        s.lines.len() as int
    };
    let end = if a.captured_lines.end <= s.lines.len() {
        a.captured_lines.end as int
    } else {
        s.lines.len() as int
    };
    match r {
        Resolution::Exact { lines } => {
            &&& s.file == a.file
            &&& holds_content(a, s.lines, start, end) ==> lines == a.captured_lines
            &&& !holds_content(a, s.lines, start, end) ==> {
                &&& lines.end - lines.start == n
                &&& lines.end <= len
                &&& holds_content(a, s.lines, lines.start as int, lines.end as int)
                &&& forall|k: int|
                    0 <= k < lines.start ==> !#[trigger] holds_content(a, s.lines, k, k + n)
            }
        },
        Resolution::Shifted { lines, similarity } => {
            &&& s.file == a.file
            &&& !holds_content(a, s.lines, start, end)
            &&& forall|k: int|
                0 <= k && k + n <= len ==> !#[trigger] holds_content(a, s.lines, k, k + n)
            &&& lines.end - lines.start == n
            &&& lines.end <= len
            &&& similarity.hits == standing(a, s.lines, lines.start as int, lines.end as int)
            &&& similarity.total == total
            &&& total > 0
            &&& 5 * similarity.hits >= wanted * total
            &&& forall|k: int|
                0 <= k && k + n <= len ==> #[trigger] standing(a, s.lines, k, k + n)
                    <= similarity.hits
            &&& forall|k: int|
                0 <= k < lines.start ==> #[trigger] standing(a, s.lines, k, k + n)
                    < similarity.hits
        },
        Resolution::Orphaned => s.file == a.file ==> {
            &&& !holds_content(a, s.lines, start, end)
            &&& forall|k: int|
                0 <= k && k + n <= len ==> !#[trigger] holds_content(a, s.lines, k, k + n)
            &&& forall|k: int|
                0 <= k && k + n <= len ==> total == 0 || 5 * #[trigger] standing(
                    a,
                    s.lines,
                    k,
                    k + n,
                ) < wanted * total
        },
    }
}

/// How many lines an anchor stands for: those it was captured on, and one for a place
/// between lines.
pub open spec fn lines_anchored(a: AnchorModel) -> int {
    if a.captured_lines.end == a.captured_lines.start {
        1
    } else {
        a.captured_lines.end - a.captured_lines.start
    }
}

/// An anchor lands where what the file holds says, and nowhere else.
pub proof fn an_anchor_lands_where_the_file_shows_it(a: AnchorModel, s: SnapshotModel)
    requires
        a.well_formed(),
    ensures
        lands(a, s, lines_anchored(a), a.resolved(s)),
{
    let n = lines_anchored(a);
    let places = a.places(s);
    assert(n == a.span());
    lemma_first_match(a, s, 0, places);
    assert forall|k: int| 0 <= k < places implies a.matches_at(s, k) == #[trigger] holds_content(
        a,
        s.lines,
        k,
        k + n,
    ) by {}
    assert forall|k: int| 0 <= k implies a.hits(s, k) == #[trigger] standing(
        a,
        s.lines,
        k,
        k + n,
    ) && a.hits(s, k) <= a.context_total() by {
        each_context_line_counts_for_itself(a, s, k);
    }
    if places > 0 {
        lemma_best_place(a, s, places);
        let best = a.best_place(s, places);
        assert(a.hits(s, best) == standing(a, s.lines, best, best + n));
    }
}

/// An anchor remembers what it was taken from: the file, the lines as they read, as far
/// as the file has them, and the nearest lines on either side, up to three.
pub proof fn an_anchor_remembers_its_surroundings(
    s: SnapshotModel,
    kind: BlockKind,
    lines: Range<u32>,
    auto_selected: bool,
)
    requires
        lines.start <= lines.end,
    ensures
        ({
            let a = captured(s, kind, lines, auto_selected);
            let len = s.lines.len() as int;
            let start = if lines.start <= len {
                lines.start as int
            } else {
                len
            };
            let end = if lines.end <= len {
                lines.end as int
            } else {
                len
            };
            let above = if start < 3 {
                start
            } else {
                3
            };
            let below = if len - end < 3 {
                len - end
            } else {
                3
            };
            &&& a.file == s.file
            &&& a.kind == kind
            &&& a.captured_lines == lines
            &&& a.auto_selected == auto_selected
            &&& a.content == text::joined(s.lines.subrange(start, end), seq!['\n'])
            &&& a.content_hash == digest(a.content)
            &&& a.context_before.len() == above
            &&& forall|i: int|
                0 <= i < above ==> #[trigger] a.context_before[i] == s.lines[start - above + i]
            &&& a.context_after.len() == below
            &&& forall|i: int|
                0 <= i < below ==> #[trigger] a.context_after[i] == s.lines[end + i]
        }),
{
}

/// A text already written as words with one space between them is hashed as it
/// stands, with the byte that closes a string behind it.
pub proof fn a_reflowed_text_is_hashed_as_it_stands(words: Seq<Seq<char>>)
    requires
        forall|i: int|
            0 <= i < words.len() ==> (#[trigger] words[i]).len() > 0 && text::unbroken(words[i]),
    ensures
        ({
            let t = text::joined(words, seq![' ']);
            digest(t) == DefaultHasher::spec_finish(
                seq![vstd::utf8::encode_utf8(t), seq![0xFFu8]],
            )
        }),
{
    text::words_come_back_from_a_line(words);
}

} // verus!
