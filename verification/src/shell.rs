//! Interactive three-pane shell.
//!
//! The loop this exists to exercise: anchor a block (in the transcript or in
//! the diff) -> type a comment -> it lands in the thread -> it ships to the
//! model as a batch on send, unless withheld.
//!
//! On top of that sit the two routing moves:
//!
//!   * **mention a person** -- `@handle` in a comment, with the expertise index
//!     suggesting who, so the "smart ask" is one click rather than a guess.
//!   * **send the snippet to another thread** -- the comment is copied with its
//!     `PortableAnchor` intact and re-resolved against the recipient's
//!     worktree, landing as Exact / Shifted / Orphaned.
//!
//! Both are the same `OverlapIndex` query in different tenses: a past author is
//! expertise, a live thread is conflict.
//!
//! Everything here is state and decisions. What takes time -- an agent's turn,
//! a release, the next beat of a demo -- is handed back with how long it takes,
//! and reported when it is over.

pub mod card_laws;
pub mod cards;
pub mod demo;
pub mod edit_laws;
pub mod editing;
pub mod forward_laws;
pub mod forwarding;
pub mod laws;
pub mod navigation;
pub mod opening;
pub mod opening_laws;
pub mod pane_laws;
pub mod panes;
pub mod picker;
pub mod routing;
pub mod signals;
pub mod state;
pub mod sweep;
pub mod sweep_laws;
pub mod threads;
pub mod turns;
pub mod words;

pub use crate::shell::signals::{observe, Observation};
pub use crate::shell::state::Shell;
pub use crate::shell::threads::{
    arrival_delivery, comment_handle, forward_allowed, resolve_in, AgentReply, CommentReply,
    MentionTarget, Provenance, SentRecord, Target, ThreadUi, UiComment,
};
pub use crate::shell::words::{parse_mentions, thread_slug};
