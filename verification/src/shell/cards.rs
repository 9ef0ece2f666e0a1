//! What a comment's card shows.

use vstd::prelude::*;

use crate::lists;
use crate::model::anchor::{Resolution, Similarity};
use crate::model::comment::Delivery;
use crate::seed;
use crate::seed::SeedActorModel;
use crate::shell::state::{Forwarding, Proactive, Shell, ShellModel};
use crate::shell::threads;
use crate::shell::threads::{
    Provenance, ProvenanceModel, SentRecord, SentRecordModel, Target, ThreadUi, ThreadUiModel,
    UiComment, UiCommentModel,
};
use crate::shell::words;
use crate::text;

verus! {

// ------------------------------------------------------------------ tokens --

/// What a word of a comment is: a person's mention is painted in their colour,
/// a thread's with its live status dot.
#[derive(Clone, Copy, Debug, PartialEq, Eq, Structural)]
pub enum TokenKind {
    Plain,
    Actor(usize),
    Thread(usize),
}

#[derive(Debug)]
pub struct Token {
    pub text: String,
    pub kind: TokenKind,
}

#[verifier::ext_equal]
pub ghost struct TokenModel {
    pub text: Seq<char>,
    pub kind: TokenKind,
}

impl DeepView for Token {
    type V = TokenModel;

    open spec fn deep_view(&self) -> TokenModel {
        TokenModel { text: self.text@, kind: self.kind }
    }
}

/// What a word of a comment is. A mention names an actor before it names a
/// thread.
pub open spec fn token_kind(threads: Seq<ThreadUiModel>, word: Seq<char>) -> TokenKind {
    match words::handle_in(word) {
        Some(handle) => match lists::place(
            seed::everyone(),
            |a: SeedActorModel| a.handle == handle,
        ) {
            Some(i) => TokenKind::Actor(i as usize),
            None => match lists::place(
                threads,
                |t: ThreadUiModel| t.seed.slug.len() > 0 && t.seed.slug == handle,
            ) {
                Some(i) => TokenKind::Thread(i as usize),
                None => TokenKind::Plain,
            },
        },
        None => TokenKind::Plain,
    }
}

/// The words of a comment, and what they are.
pub open spec fn tokens_of(threads: Seq<ThreadUiModel>, words: Seq<Seq<char>>) -> Seq<TokenModel> {
    Seq::new(
        words.len(),
        |i: int| TokenModel { text: words[i], kind: token_kind(threads, words[i]) },
    )
}

/// Where the actor with that handle stands.
fn find_actor(handle: &str) -> (r: Option<usize>)
    ensures
        match r {
            Some(i) => i < seed::everyone().len() && lists::place(
                seed::everyone(),
                |a: SeedActorModel| a.handle == handle@,
            ) == Some(i as int),
            None => lists::place(
                seed::everyone(),
                |a: SeedActorModel| a.handle == handle@,
            ) is None,
        },
{
    let all = seed::actors();
    let ghost who = all.deep_view();
    let ghost p = |a: SeedActorModel| a.handle == handle@;
    let mut i: usize = 0;
    while i < all.len()
        invariant
            who == all.deep_view(),
            who == seed::everyone(),
            p == (|a: SeedActorModel| a.handle == handle@),
            i <= all.len(),
            lists::position(who, p) == lists::position_from(who, p, i as int),
        decreases all.len() - i,
    {
        assert(who[i as int] == all@[i as int].deep_view());
        if text::same_text(all[i].handle, handle) {
            return Some(i);
        }
        i += 1;
    }
    None
}

/// Where the thread with that slug stands.
fn find_slug(threads: &Vec<ThreadUi>, slug: &str) -> (r: Option<usize>)
    ensures
        match r {
            Some(i) => i < threads.len() && lists::place(
                threads.deep_view(),
                |t: ThreadUiModel| t.seed.slug.len() > 0 && t.seed.slug == slug@,
            ) == Some(i as int),
            None => lists::place(
                threads.deep_view(),
                |t: ThreadUiModel| t.seed.slug.len() > 0 && t.seed.slug == slug@,
            ) is None,
        },
{
    let ghost all = threads.deep_view();
    let ghost p = |t: ThreadUiModel| t.seed.slug.len() > 0 && t.seed.slug == slug@;
    let mut i: usize = 0;
    while i < threads.len()
        invariant
            all == threads.deep_view(),
            p == (|t: ThreadUiModel| t.seed.slug.len() > 0 && t.seed.slug == slug@),
            i <= threads.len(),
            lists::position(all, p) == lists::position_from(all, p, i as int),
        decreases threads.len() - i,
    {
        assert(all[i as int] == threads@[i as int].deep_view());
        if !text::is_empty(threads[i].seed.slug) && text::same_text(threads[i].seed.slug, slug) {
            return Some(i);
        }
        i += 1;
    }
    None
}

/// What a word of a comment is.
fn classify(threads: &Vec<ThreadUi>, word: &str) -> (r: TokenKind)
    ensures
        r == token_kind(threads.deep_view(), word@),
        r matches TokenKind::Actor(i) ==> i < seed::everyone().len(),
        r matches TokenKind::Thread(i) ==> i < threads.len(),
{
    match words::mention_word(word) {
        Some(handle) => match find_actor(handle) {
            Some(i) => TokenKind::Actor(i),
            None => match find_slug(threads, handle) {
                Some(i) => TokenKind::Thread(i),
                None => TokenKind::Plain,
            },
        },
        None => TokenKind::Plain,
    }
}

impl Shell {
    /// The words of a comment, and what they are.
    pub fn body_tokens(&self, body: &str) -> (r: Vec<Token>)
        ensures
            r.deep_view() == tokens_of(self.deep_view().threads, text::words(body@)),
            forall|k: int|
                0 <= k < r.len() ==> {
                    &&& (#[trigger] r@[k]).kind matches TokenKind::Actor(i) ==> i
                        < seed::everyone().len()
                    &&& r@[k].kind matches TokenKind::Thread(i) ==> i < self.threads.len()
                },
    {
        let found = text::split_words(body);
        let ghost all = found.deep_view();
        let ghost threads = self.threads.deep_view();
        let mut out: Vec<Token> = Vec::new();
        let mut k: usize = 0;
        while k < found.len()
            invariant
                all == found.deep_view(),
                threads == self.threads.deep_view(),
                k <= found.len(),
                out.deep_view() == tokens_of(threads, all).take(k as int),
                forall|k: int|
                    0 <= k < out.len() ==> {
                        &&& (#[trigger] out@[k]).kind matches TokenKind::Actor(i) ==> i
                            < seed::everyone().len()
                        &&& out@[k].kind matches TokenKind::Thread(i) ==> i < self.threads.len()
                    },
            decreases found.len() - k,
        {
            assert(all[k as int] == found@[k as int]@);
            let ghost before = out.deep_view();
            let kind = classify(&self.threads, found[k].as_str());
            let token = Token { text: found[k].clone(), kind };
            out.push(token);
            assert(out.deep_view() =~= before.push(token.deep_view()));
            k += 1;
            assert(out.deep_view() =~= tokens_of(threads, all).take(k as int));
        }
        assert(out.deep_view() =~= tokens_of(threads, all));
        out
    }
}

// -------------------------------------------------------------- visibility --

/// Proactive flags are hidden while people talk among themselves.
pub open spec fn visible_in(mode: Proactive, c: UiCommentModel) -> bool {
    mode != Proactive::Off || c.divergence is None
}

impl Shell {
    /// Proactive flags are hidden while people talk among themselves.
    pub fn visible(&self, comment: &UiComment) -> (r: bool)
        ensures
            r == visible_in(self.deep_view().proactive, comment.deep_view()),
    {
        self.proactive.on() || comment.divergence.is_none()
    }
}

// -------------------------------------------------------------------- card --

/// What a card says about where its anchor went.
#[derive(Clone, Copy, Debug)]
pub enum Badge {
    /// It is where it was, or its content is somewhere else unchanged.
    InPlace,
    /// Its surroundings placed it.
    Reanchored(Similarity),
    Orphaned,
}

pub open spec fn badge_of(resolution: Resolution) -> Badge {
    match resolution {
        Resolution::Exact { .. } => Badge::InPlace,
        Resolution::Shifted { similarity, .. } => Badge::Reanchored(similarity),
        Resolution::Orphaned => Badge::Orphaned,
    }
}

/// Why a card quotes what its anchor pointed at.
#[derive(Clone, Copy, Debug, PartialEq, Eq, Structural)]
pub enum Quote {
    /// It does not.
    Nothing,
    /// An orphan still carries its content, so quote what it pointed at.
    Orphan,
    /// A note-less snippet quotes it too -- there the code *is* the message.
    Snippet,
}

impl Quote {
    pub fn label(self) -> (r: &'static str)
        ensures
            r@ == (match self {
                Quote::Nothing => ""@,
                Quote::Orphan => "nothing here matches; quoting the original"@,
                Quote::Snippet => "sent as a snippet, no note"@,
            }),
    {
        match self {
            Quote::Nothing => "",
            Quote::Orphan => "nothing here matches; quoting the original",
            Quote::Snippet => "sent as a snippet, no note",
        }
    }
}

/// The line under a card's header, if there is one. Agents are not named; the
/// tag says what this is.
#[derive(Clone, Copy, Debug, PartialEq, Eq, Structural)]
pub enum Tag {
    Plain,
    /// A finding nobody has let through yet, with the choice to.
    Held,
    /// The workspace's own flag.
    Proactive,
}

/// What a comment's card shows.
#[derive(Debug)]
pub struct Card {
    pub place: String,
    pub badge: Badge,
    pub tag: Tag,
    /// Saying where an injected comment came from is the whole safeguard.
    pub provenance: Option<String>,
    pub quote: Quote,
    /// There is a note, not only a snippet.
    pub note: bool,
    /// Nobody authored it -- a hollow ring, not somebody's cursor colour.
    pub hollow: bool,
    /// The reply box is open under it.
    pub composing: bool,
    /// The list of threads to send it to is open under it.
    pub forwarding: bool,
}

#[verifier::ext_equal]
pub ghost struct CardModel {
    pub place: Seq<char>,
    pub badge: Badge,
    pub tag: Tag,
    pub provenance: Option<Seq<char>>,
    pub quote: Quote,
    pub note: bool,
    pub hollow: bool,
    pub composing: bool,
    pub forwarding: bool,
}

impl DeepView for Card {
    type V = CardModel;

    open spec fn deep_view(&self) -> CardModel {
        CardModel {
            place: self.place@,
            badge: self.badge,
            tag: self.tag,
            provenance: self.provenance.deep_view(),
            quote: self.quote,
            note: self.note,
            hollow: self.hollow,
            composing: self.composing,
            forwarding: self.forwarding,
        }
    }
}

/// What a thread is called in a provenance line.
pub open spec fn origin_name(title: Seq<char>) -> Seq<char> {
    match seed::titled(seed::every_thread(), title) {
        Some(thread) => words::slug_of(thread),
        None => title,
    }
}

/// Who sent a comment here, who wrote it, and where from.
pub open spec fn provenance_of(c: UiCommentModel) -> Option<Seq<char>> {
    match c.origin {
        ProvenanceModel::Local => None,
        ProvenanceModel::Forwarded { from_title, forwarded_by, original_author } => Some(
            (if c.delivery == Delivery::Queued {
                "queued behind the current turn - "@
            } else {
                ""@
            }) + "forwarded by @"@ + seed::everyone()[forwarded_by as int].handle
                + " - originally @"@ + seed::everyone()[original_author as int].handle + " in @"@
                + origin_name(from_title),
        ),
    }
}

/// Whoever a comment's provenance names is someone.
pub open spec fn names_someone(c: UiCommentModel) -> bool {
    c.origin matches ProvenanceModel::Forwarded { forwarded_by, original_author, .. }
        ==> forwarded_by < seed::everyone().len() && original_author < seed::everyone().len()
}

impl ShellModel {
    /// What the card of a comment in the current thread shows.
    pub open spec fn card(self, c: UiCommentModel) -> CardModel {
        let thread = self.current();
        CardModel {
            place: threads::place_of(
                c,
                thread.diff_path(),
                thread.seed.diff_file,
                thread.seed.diff_lines,
            ),
            badge: badge_of(c.resolved),
            tag: if c.delivery == Delivery::Proposed {
                Tag::Held
            } else if c.divergence is Some {
                Tag::Proactive
            } else {
                Tag::Plain
            },
            provenance: provenance_of(c),
            quote: if c.resolved is Orphaned {
                Quote::Orphan
            } else if c.body.len() == 0 {
                Quote::Snippet
            } else {
                Quote::Nothing
            },
            note: c.body.len() > 0,
            hollow: c.divergence is Some || c.about is Some,
            composing: self.target == Some(Target::Reply(c.id)),
            forwarding: self.forwarding == Forwarding::Comment(c.id),
        }
    }
}

/// An orphan always quotes what it pointed at, and a card always shows
/// something: the note, or the snippet.
pub proof fn content_survives_the_hop(m: ShellModel, c: UiCommentModel)
    ensures
        c.resolved is Orphaned ==> m.card(c).quote == Quote::Orphan,
        m.card(c).note || m.card(c).quote != Quote::Nothing,
{
}

fn say_origin_name(title: &'static str) -> (r: String)
    ensures
        r@ == origin_name(title@),
{
    match seed::thread_by_title(title) {
        Some(thread) => words::thread_slug(&thread),
        None => title.to_owned(),
    }
}

/// Who sent a comment here, who wrote it, and where from.
pub fn provenance_line(comment: &UiComment) -> (r: Option<String>)
    requires
        names_someone(comment.deep_view()),
    ensures
        r.deep_view() == provenance_of(comment.deep_view()),
{
    match comment.origin {
        Provenance::Local => None,
        Provenance::Forwarded { from_title, forwarded_by, original_author } => {
            let mut out = if comment.delivery == Delivery::Queued {
                "queued behind the current turn - ".to_owned()
            } else {
                "".to_owned()
            };
            out.append("forwarded by @");
            out.append(seed::actor(forwarded_by).handle);
            out.append(" - originally @");
            out.append(seed::actor(original_author).handle);
            out.append(" in @");
            out.append(say_origin_name(from_title).as_str());
            Some(out)
        },
    }
}

impl Shell {
    /// What the card of a comment in the current thread shows.
    pub fn card(&self, comment: &UiComment) -> (r: Card)
        requires
            self.deep_view().well_formed(),
            names_someone(comment.deep_view()),
        ensures
            r.deep_view() == self.deep_view().card(comment.deep_view()),
    {
        let thread = &self.threads[self.active];
        assert(self.deep_view().current() == thread.deep_view());
        let diff_path = thread.diff_path();
        let place = threads::describe_where(
            comment,
            diff_path.as_str(),
            thread.seed.diff_file,
            &thread.seed.diff_lines,
        );
        let badge = match &comment.resolved {
            Resolution::Exact { .. } => Badge::InPlace,
            Resolution::Shifted { similarity, .. } => Badge::Reanchored(*similarity),
            Resolution::Orphaned => Badge::Orphaned,
        };
        let tag = if comment.delivery == Delivery::Proposed {
            Tag::Held
        } else if comment.divergence.is_some() {
            Tag::Proactive
        } else {
            Tag::Plain
        };
        let note = !text::is_empty(comment.body.as_str());
        let quote = if comment.resolved.is_orphaned() {
            Quote::Orphan
        } else if !note {
            Quote::Snippet
        } else {
            Quote::Nothing
        };
        let composing = match self.target {
            Some(Target::Reply(id)) => id == comment.id,
            _ => false,
        };
        Card {
            place,
            badge,
            tag,
            provenance: provenance_line(comment),
            quote,
            note,
            hollow: comment.divergence.is_some() || comment.about.is_some(),
            composing,
            forwarding: self.forwarding == Forwarding::Comment(comment.id),
        }
    }
}

// ---------------------------------------------------------------- receipts --

/// What became of something that was sent.
#[derive(Clone, Copy, Debug, PartialEq, Eq, Structural)]
pub enum ReceiptStatus {
    Withdrawn,
    NotToldYet,
    HasIt,
}

impl ReceiptStatus {
    pub fn label(self) -> (r: &'static str)
        ensures
            r@ == (match self {
                ReceiptStatus::Withdrawn => "withdrawn there"@,
                ReceiptStatus::NotToldYet => "agent not told yet"@,
                ReceiptStatus::HasIt => "agent has it"@,
            }),
    {
        match self {
            ReceiptStatus::Withdrawn => "withdrawn there",
            ReceiptStatus::NotToldYet => "agent not told yet",
            ReceiptStatus::HasIt => "agent has it",
        }
    }

    pub fn color(self) -> (r: u32)
        ensures
            r == (match self {
                ReceiptStatus::Withdrawn => 0x777777u32,
                ReceiptStatus::NotToldYet => 0xE0A030,
                ReceiptStatus::HasIt => 0x4A9E5C,
            }),
    {
        match self {
            ReceiptStatus::Withdrawn => 0x777777,
            ReceiptStatus::NotToldYet => 0xE0A030,
            ReceiptStatus::HasIt => 0x4A9E5C,
        }
    }
}

/// Whether a comment has been kept from the agent so far: nobody approved it, it
/// waits for the turn boundary, or somebody withheld it.
pub open spec fn untold(delivery: Delivery) -> bool {
    ||| delivery == Delivery::Proposed
    ||| delivery == Delivery::Queued
    ||| delivery == Delivery::Withheld
}

pub fn is_untold(delivery: Delivery) -> (r: bool)
    ensures
        r == untold(delivery),
{
    delivery == Delivery::Proposed || delivery == Delivery::Queued || delivery
        == Delivery::Withheld
}

impl ShellModel {
    /// What became of something that was sent: what the recipient did with it,
    /// not what was true at the moment of sending.
    pub open spec fn fate(self, record: SentRecordModel) -> ReceiptStatus {
        let recipient = self.threads[record.to as int];
        match recipient.comment_at(record.comment) {
            None => ReceiptStatus::Withdrawn,
            Some(k) => if untold(recipient.comments[k].delivery) {
                ReceiptStatus::NotToldYet
            } else {
                ReceiptStatus::HasIt
            },
        }
    }
}

impl Shell {
    /// What became of something that was sent. Read live, so it reflects what
    /// the recipient did rather than what was true at the moment of sending.
    pub fn receipt_status(&self, record: &SentRecord) -> (r: ReceiptStatus)
        requires
            record.to < self.threads.len(),
        ensures
            r == self.deep_view().fate(record.deep_view()),
    {
        let recipient = &self.threads[record.to];
        assert(self.deep_view().threads[record.to as int] == recipient.deep_view());
        match recipient.find_comment(record.comment) {
            None => ReceiptStatus::Withdrawn,
            Some(k) => {
                assert(recipient.deep_view().comments[k as int]
                    == recipient.comments@[k as int].deep_view());
                if is_untold(recipient.comments[k].delivery) {
                    ReceiptStatus::NotToldYet
                } else {
                    ReceiptStatus::HasIt
                }
            },
        }
    }
}

} // verus!
