//! Moving between threads and panes.

use vstd::prelude::*;

use crate::shell::state;
use crate::shell::state::{Forwarding, Pane, Shell, ShellModel};
use crate::shell::threads::ThreadUiModel;
use crate::text;

verus! {

/// What has been typed, with `handle` mentioned at its end.
pub open spec fn asked(typed: Seq<char>, handle: Seq<char>) -> Seq<char> {
    let spaced = if typed.len() > 0 && typed.last() != ' ' {
        typed.push(' ')
    } else {
        typed
    };
    (spaced.push('@') + handle).push(' ')
}

impl ShellModel {
    /// On thread `i`, which has been looked at now.
    pub open spec fn visited(self, i: usize) -> ShellModel {
        ShellModel {
            active: i,
            view: Pane::Thread,
            ..self.with_thread(
                i as int,
                ThreadUiModel { unread: false, ..self.threads[i as int] },
            )
        }
    }

    /// On thread `i`, by a link to it.
    pub open spec fn followed(self, i: usize) -> ShellModel {
        ShellModel { target: None, forwarding: Forwarding::Idle, ..self.visited(i) }
    }

    /// On thread `i`, by its row in the sidebar.
    pub open spec fn switched(self, i: usize) -> ShellModel {
        self.followed(i).with_nothing_typed()
    }

    /// On another pane.
    pub open spec fn showing(self, view: Pane) -> ShellModel {
        ShellModel { view, forwarding: Forwarding::Idle, ..self }
    }

    /// With the list of threads to send `what` to open, or closed if it was.
    pub open spec fn forward_toggled(self, what: Forwarding) -> ShellModel {
        ShellModel {
            forwarding: if self.forwarding == what {
                Forwarding::Idle
            } else {
                what
            },
            ..self
        }
    }
}

/// Looking at a thread keeps the shell well formed.
pub proof fn lemma_visited(m: ShellModel, i: usize)
    requires
        m.well_formed(),
        i < m.threads.len(),
    ensures
        m.visited(i).well_formed(),
        m.followed(i).well_formed(),
        m.switched(i).well_formed(),
{
    let after = m.visited(i);
    assert forall|j: int| 0 <= j < after.threads.len() implies {
        &&& (#[trigger] after.threads[j]).seed == m.threads[j].seed
        &&& state::same_identities(m.threads[j].comments, after.threads[j].comments)
        &&& state::sent_to_threads(after.threads[j], after.threads.len())
    } by {
        assert(state::sent_to_threads(m.threads[j], m.threads.len()));
    }
    state::lemma_same_identities(m, after);
    state::lemma_same_identities(m, m.followed(i));
    state::lemma_same_identities(m, m.switched(i));
}

/// Going from thread to thread moves nothing but the reader: no comment, no
/// record and no agent's state changes on the way.
pub proof fn reading_changes_nothing_but_unread(m: ShellModel, i: usize, j: int)
    requires
        i < m.threads.len(),
        0 <= j < m.threads.len(),
    ensures
        m.switched(i).threads[j] == (ThreadUiModel {
            unread: m.threads[j].unread && j != i,
            ..m.threads[j]
        }),
        m.switched(i).next_id == m.next_id,
        m.switched(i).dismissed == m.dismissed,
{
}

impl Shell {
    /// Goes to a thread from a row that lists it.
    pub fn visit(&mut self, i: usize)
        requires
            old(self).deep_view().well_formed(),
            i < old(self).threads.len(),
        ensures
            final(self).deep_view() == old(self).deep_view().visited(i),
            final(self).deep_view().well_formed(),
    {
        let ghost m = self.deep_view();
        assert(m.threads[i as int] == self.threads@[i as int].deep_view());
        self.active = i;
        self.view = Pane::Thread;
        self.threads[i].unread = false;
        assert(self.threads.deep_view() =~= m.visited(i).threads);
        proof {
            lemma_visited(m, i);
        }
    }

    /// Goes to a thread by its mention. A thread mention is a reference, so the
    /// only thing it does is take you there.
    pub fn follow(&mut self, i: usize)
        requires
            old(self).deep_view().well_formed(),
            i < old(self).threads.len(),
        ensures
            final(self).deep_view() == old(self).deep_view().followed(i),
            final(self).deep_view().well_formed(),
    {
        let ghost m = self.deep_view();
        self.visit(i);
        self.target = None;
        self.forwarding = Forwarding::Idle;
        proof {
            lemma_visited(m, i);
        }
    }

    /// Goes to a thread by its row in the sidebar.
    pub fn switch_to(&mut self, i: usize)
        requires
            old(self).deep_view().well_formed(),
            i < old(self).threads.len(),
        ensures
            final(self).deep_view() == old(self).deep_view().switched(i),
            final(self).deep_view().well_formed(),
    {
        let ghost m = self.deep_view();
        self.follow(i);
        self.clear_composer();
        proof {
            lemma_visited(m, i);
        }
    }

    /// Shows the board, the inbox or the thread.
    pub fn show(&mut self, view: Pane)
        requires
            old(self).deep_view().well_formed(),
        ensures
            final(self).deep_view() == old(self).deep_view().showing(view),
            final(self).deep_view().well_formed(),
    {
        self.view = view;
        self.forwarding = Forwarding::Idle;
    }

    /// Opens the list of threads something can be sent to, or closes it.
    pub fn toggle_forward(&mut self, what: Forwarding)
        requires
            old(self).deep_view().well_formed(),
        ensures
            final(self).deep_view() == old(self).deep_view().forward_toggled(what),
            final(self).deep_view().well_formed(),
    {
        self.forwarding = if self.forwarding == what {
            Forwarding::Idle
        } else {
            what
        };
    }

    /// Mentions someone at the end of what has been typed.
    pub fn ask(&mut self, handle: &str)
        requires
            old(self).deep_view().well_formed(),
        ensures
            final(self).deep_view() == old(self).deep_view().with_typed(
                asked(old(self).deep_view().composer.content, handle@),
            ),
            final(self).deep_view().well_formed(),
    {
        let mut typed = self.composer_text();
        let chars = text::to_chars(typed.as_str());
        if chars.len() > 0 && chars[chars.len() - 1] != ' ' {
            typed.push(' ');
        }
        typed.push('@');
        typed.append(handle);
        typed.push(' ');
        self.set_composer(typed.as_str());
    }
}

/// Asking someone puts their mention behind what was typed, with a space between where
/// there was none, and one behind it.
pub proof fn asking_mentions_at_the_end(typed: Seq<char>, handle: Seq<char>)
    ensures
        asked(Seq::empty(), handle) == seq!['@'] + handle + seq![' '],
        asked(typed.push(' '), handle) == typed + seq![' ', '@'] + handle + seq![' '],
        typed.len() > 0 && typed.last() != ' ' ==> asked(typed, handle) == typed + seq![' ', '@']
            + handle + seq![' '],
{
    assert(asked(Seq::empty(), handle) =~= seq!['@'] + handle + seq![' ']);
    assert(asked(typed.push(' '), handle) =~= typed + seq![' ', '@'] + handle + seq![' ']);
    if typed.len() > 0 && typed.last() != ' ' {
        assert(asked(typed, handle) =~= typed + seq![' ', '@'] + handle + seq![' ']);
    }
}

/// Going to a thread shows it and marks it read. A link also lets go of what the
/// composer was pointed at and closes the list of threads; the sidebar empties the
/// composer besides. Showing another pane closes the list. Nothing else changes.
pub proof fn going_somewhere_shows_it(m: ShellModel, i: usize, view: Pane)
    requires
        i < m.threads.len(),
    ensures
        ({
            let read = m.threads.update(
                i as int,
                ThreadUiModel { unread: false, ..m.threads[i as int] },
            );
            &&& m.visited(i) == ShellModel { active: i, view: Pane::Thread, threads: read, ..m }
            &&& m.followed(i) == ShellModel {
                active: i,
                view: Pane::Thread,
                threads: read,
                target: None,
                forwarding: Forwarding::Idle,
                ..m
            }
            &&& m.switched(i) == ShellModel {
                active: i,
                view: Pane::Thread,
                threads: read,
                target: None,
                forwarding: Forwarding::Idle,
                composer: m.composer.with_text(Seq::empty()),
                picker_dismissed: false,
                mention_sel: 0,
                ..m
            }
            &&& m.showing(view) == ShellModel { view, forwarding: Forwarding::Idle, ..m }
        }),
{
}

/// A list of threads that is open closes, and any other opens in its place: at most one
/// is open.
pub proof fn at_most_one_list_is_open(m: ShellModel, what: Forwarding)
    ensures
        m.forwarding != what ==> m.forward_toggled(what) == (ShellModel { forwarding: what, ..m }),
        m.forwarding == what ==> m.forward_toggled(what) == (ShellModel {
            forwarding: Forwarding::Idle,
            ..m
        }),
        what != Forwarding::Idle && m.forwarding == Forwarding::Idle ==> m.forward_toggled(
            what,
        ).forward_toggled(what) == m,
{
}

} // verus!
