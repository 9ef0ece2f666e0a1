//! A real text field.
//!
//! A single line with a caret, a selection, a clipboard and an input method:
//! without the last, no language that composes its characters could be typed
//! at all.
//!
//! Offsets are UTF-8 bytes; the platform's text system counts UTF-16 units, and
//! the caret steps over whole grapheme clusters.
//!
//! It owns no application meaning. What it does is told by a [`ComposerEvent`],
//! and the shell decides what submitting or cancelling implies.

use std::ops::Range;

use unicode_segmentation::UnicodeSegmentation;
use vstd::prelude::*;

use crate::offset;
use crate::text;

verus! {

/// Everything the composer knows how to say. What any of it *means* -- commit a
/// comment, dismiss a picker, choose a mention -- is the shell's business.
#[derive(Clone, Copy, Debug, PartialEq, Eq, Structural)]
pub enum ComposerEvent {
    Changed,
    Submit,
    Cancel,
    /// Tab, or whatever else means "take the highlighted suggestion".
    Complete,
    MoveUp,
    MoveDown,
}

// --------------------------------------------------------------- graphemes --

/// The grapheme clusters of a text, each with the byte offset it starts at, as
/// Unicode's extended rules draw them.
pub uninterp spec fn graphemes(text: Seq<char>) -> Seq<(usize, Seq<char>)>;

/// The first `k` pieces, one after another.
pub open spec fn pieced(pieces: Seq<(usize, Seq<char>)>, k: int) -> Seq<char>
    decreases k,
{
    if k <= 0 {
        Seq::empty()
    } else {
        pieced(pieces, k - 1) + pieces[k - 1].1
    }
}

/// The pieces are the text, cut up: none is empty, each starts where the ones
/// before it end, and together they are the whole of it.
pub open spec fn tiles(pieces: Seq<(usize, Seq<char>)>, text: Seq<char>) -> bool {
    &&& forall|i: int|
        #![trigger pieces[i]]
        0 <= i < pieces.len() ==> pieces[i].1.len() > 0 && pieces[i].0 == offset::byte_len(
            pieced(pieces, i),
        )
    &&& pieced(pieces, pieces.len() as int) == text
}

/// `UnicodeSegmentation::grapheme_indices` with extended clusters. Which
/// clusters it draws depends on the text alone. They come in order, none of
/// them empty, with the byte offset each starts at, and leave nothing of the
/// text out.
#[verifier::external_body]
fn grapheme_indices(text: &str) -> (r: Vec<(usize, String)>)
    ensures
        r.deep_view() == graphemes(text@),
        tiles(r.deep_view(), text@),
{
    text.grapheme_indices(true).map(|(index, piece)| (index, piece.to_string())).collect()
}

/// Where the last of the first `k` pieces that starts before `n` starts, or 0.
pub open spec fn last_start_before(pieces: Seq<(usize, Seq<char>)>, n: int, k: int) -> int
    decreases k,
{
    if k <= 0 {
        0
    } else if pieces[k - 1].0 < n {
        pieces[k - 1].0 as int
    } else {
        last_start_before(pieces, n, k - 1)
    }
}

/// One step to the left of `n`.
pub open spec fn step_left(pieces: Seq<(usize, Seq<char>)>, n: int) -> int {
    last_start_before(pieces, n, pieces.len() as int)
}

/// One step to the right of `n`, looking from piece `k` on: past the piece that
/// starts at `n`, else to the first that starts after it, else to the end of
/// the text.
pub open spec fn first_end_after(
    pieces: Seq<(usize, Seq<char>)>,
    text: Seq<char>,
    n: int,
    k: int,
) -> int
    decreases pieces.len() - k,
{
    if k >= pieces.len() {
        offset::byte_len(text) as int
    } else if pieces[k].0 > n {
        pieces[k].0 as int
    } else if pieces[k].0 == n {
        pieces[k].0 + offset::byte_len(pieces[k].1)
    } else {
        first_end_after(pieces, text, n, k + 1)
    }
}

/// One step to the right of `n`.
pub open spec fn step_right(pieces: Seq<(usize, Seq<char>)>, text: Seq<char>, n: int) -> int {
    first_end_after(pieces, text, n, 0)
}

proof fn lemma_pieced_grows(pieces: Seq<(usize, Seq<char>)>, i: int, j: int)
    requires
        0 <= i <= j <= pieces.len(),
    ensures
        pieced(pieces, i).len() <= pieced(pieces, j).len(),
        pieced(pieces, j).take(pieced(pieces, i).len() as int) == pieced(pieces, i),
    decreases j - i,
{
    let a = pieced(pieces, i);
    if i < j {
        lemma_pieced_grows(pieces, i, j - 1);
        assert(pieced(pieces, j).take(a.len() as int) =~= pieced(pieces, j - 1).take(
            a.len() as int,
        ));
    } else {
        assert(a.take(a.len() as int) =~= a);
    }
}

/// The first `k` pieces end between characters of the text, at the offset where
/// piece `k` starts.
proof fn lemma_piece_offsets(pieces: Seq<(usize, Seq<char>)>, text: Seq<char>, k: int)
    requires
        tiles(pieces, text),
        0 <= k <= pieces.len(),
    ensures
        offset::boundary(text, offset::byte_len(pieced(pieces, k)) as int),
        offset::byte_len(pieced(pieces, k)) <= offset::byte_len(text),
        k < pieces.len() ==> pieces[k].0 == offset::byte_len(pieced(pieces, k)),
        k < pieces.len() ==> pieces[k].0 + offset::byte_len(pieces[k].1) == offset::byte_len(
            pieced(pieces, k + 1),
        ),
        k < pieces.len() ==> offset::byte_len(pieces[k].1) > 0,
        k == pieces.len() ==> offset::byte_len(pieced(pieces, k)) == offset::byte_len(text),
{
    let a = pieced(pieces, k);
    let m = a.len() as int;
    lemma_pieced_grows(pieces, k, pieces.len() as int);
    assert(a.take(m) =~= a);
    offset::lemma_prefix_offset(text, a, m);
    offset::lemma_chars_before(text, m);
    offset::lemma_offsets_grow(text, m, text.len() as int);
    if k < pieces.len() {
        let piece = pieces[k].1;
        offset::lemma_concat_bytes(a, piece, piece.len() as int);
        offset::lemma_offsets_grow(piece, 0, piece.len() as int);
    }
}

/// Each piece starts where the one before it ends.
#[verifier::spinoff_prover]
proof fn lemma_next_start(pieces: Seq<(usize, Seq<char>)>, text: Seq<char>, k: int)
    requires
        tiles(pieces, text),
        0 <= k < pieces.len() - 1,
    ensures
        pieces[k + 1].0 == pieces[k].0 + offset::byte_len(pieces[k].1),
        pieces[k].0 < pieces[k + 1].0,
{
    lemma_piece_offsets(pieces, text, k);
    lemma_piece_offsets(pieces, text, k + 1);
}

/// Each piece starts where the one before it ends, and after it.
spec fn in_a_row(pieces: Seq<(usize, Seq<char>)>) -> bool {
    forall|k: int|
        #![trigger pieces[k + 1]]
        0 <= k < pieces.len() - 1 ==> pieces[k + 1].0 == pieces[k].0 + offset::byte_len(pieces[k].1)
            && pieces[k].0 < pieces[k + 1].0
}

proof fn lemma_in_a_row(pieces: Seq<(usize, Seq<char>)>, text: Seq<char>)
    requires
        tiles(pieces, text),
    ensures
        in_a_row(pieces),
{
    assert forall|k: int|
        #![trigger pieces[k + 1]]
        0 <= k < pieces.len() - 1 implies pieces[k + 1].0 == pieces[k].0 + offset::byte_len(
        pieces[k].1,
    ) && pieces[k].0 < pieces[k + 1].0 by {
        lemma_next_start(pieces, text, k);
    }
}

#[verifier::spinoff_prover]
proof fn lemma_starts_ascend(pieces: Seq<(usize, Seq<char>)>, i: int, j: int)
    requires
        in_a_row(pieces),
        0 <= i < j < pieces.len(),
    ensures
        pieces[i].0 < pieces[j].0,
    decreases j - i,
{
    assert(pieces[(j - 1) + 1] == pieces[j]);
    if i < j - 1 {
        lemma_starts_ascend(pieces, i, j - 1);
    }
}

proof fn lemma_last_start_before(
    pieces: Seq<(usize, Seq<char>)>,
    text: Seq<char>,
    n: int,
    k: int,
)
    requires
        tiles(pieces, text),
        0 <= k <= pieces.len(),
    ensures
        offset::boundary(text, last_start_before(pieces, n, k)),
        0 <= last_start_before(pieces, n, k) <= offset::byte_len(text),
        n > 0 ==> last_start_before(pieces, n, k) < n,
    decreases k,
{
    if k == 0 {
        offset::lemma_chars_before(text, 0);
    } else {
        lemma_piece_offsets(pieces, text, k - 1);
        lemma_last_start_before(pieces, text, n, k - 1);
    }
}

proof fn lemma_first_end_after(pieces: Seq<(usize, Seq<char>)>, text: Seq<char>, n: int, k: int)
    requires
        tiles(pieces, text),
        0 <= k <= pieces.len(),
    ensures
        offset::boundary(text, first_end_after(pieces, text, n, k)),
        0 <= first_end_after(pieces, text, n, k) <= offset::byte_len(text),
    decreases pieces.len() - k,
{
    lemma_piece_offsets(pieces, text, k);
    if k < pieces.len() {
        lemma_piece_offsets(pieces, text, k + 1);
        lemma_first_end_after(pieces, text, n, k + 1);
    }
}

/// A step lands between characters, and within the text.
pub proof fn steps_land_between_characters(
    pieces: Seq<(usize, Seq<char>)>,
    text: Seq<char>,
    n: int,
)
    requires
        tiles(pieces, text),
    ensures
        offset::boundary(text, step_left(pieces, n)),
        offset::boundary(text, step_right(pieces, text, n)),
        0 <= step_left(pieces, n) <= offset::byte_len(text),
        0 <= step_right(pieces, text, n) <= offset::byte_len(text),
{
    lemma_last_start_before(pieces, text, n, pieces.len() as int);
    lemma_first_end_after(pieces, text, n, 0);
}

#[verifier::spinoff_prover]
proof fn lemma_step_right_at(pieces: Seq<(usize, Seq<char>)>, text: Seq<char>, k: int, from: int)
    requires
        in_a_row(pieces),
        0 <= from <= k < pieces.len(),
    ensures
        first_end_after(pieces, text, pieces[k].0 as int, from) == pieces[k].0 + offset::byte_len(
            pieces[k].1,
        ),
    decreases k - from,
{
    if from < k {
        lemma_starts_ascend(pieces, from, k);
        lemma_step_right_at(pieces, text, k, from + 1);
    }
}

#[verifier::spinoff_prover]
proof fn lemma_step_left_at(pieces: Seq<(usize, Seq<char>)>, k: int, upto: int)
    requires
        in_a_row(pieces),
        0 <= k < upto <= pieces.len(),
        offset::byte_len(pieces[k].1) > 0,
    ensures
        last_start_before(pieces, pieces[k].0 + offset::byte_len(pieces[k].1), upto)
            == pieces[k].0,
    decreases upto - k,
{
    if k + 1 < upto {
        assert(pieces[k + 1].0 == pieces[k].0 + offset::byte_len(pieces[k].1));
        if k + 1 < upto - 1 {
            lemma_starts_ascend(pieces, k + 1, upto - 1);
        }
        lemma_step_left_at(pieces, k, upto - 1);
    }
}

/// From the start of a cluster, a step right passes exactly that cluster, and a
/// step left comes back.
pub proof fn a_step_right_and_a_step_left_cancel(
    pieces: Seq<(usize, Seq<char>)>,
    text: Seq<char>,
    k: int,
)
    requires
        tiles(pieces, text),
        0 <= k < pieces.len(),
    ensures
        step_right(pieces, text, pieces[k].0 as int) == pieces[k].0 + offset::byte_len(
            pieces[k].1,
        ),
        step_left(pieces, step_right(pieces, text, pieces[k].0 as int)) == pieces[k].0,
{
    lemma_in_a_row(pieces, text);
    lemma_piece_offsets(pieces, text, k);
    lemma_step_right_at(pieces, text, k, 0);
    lemma_step_left_at(pieces, k, pieces.len() as int);
}

/// One step to the left of `offset`, in a text whose clusters are `pieces`.
pub fn boundary_before(pieces: &Vec<(usize, String)>, offset: usize) -> (r: usize)
    ensures
        r == step_left(pieces.deep_view(), offset as int),
{
    let mut k: usize = pieces.len();
    while k > 0
        invariant
            k <= pieces.len(),
            step_left(pieces.deep_view(), offset as int) == last_start_before(
                pieces.deep_view(),
                offset as int,
                k as int,
            ),
        decreases k,
    {
        assert(pieces.deep_view()[k - 1].0 == pieces@[k - 1].0);
        if pieces[k - 1].0 < offset {
            return pieces[k - 1].0;
        }
        k -= 1;
    }
    0
}

/// One step to the right of `offset`, in a text whose clusters are `pieces`.
pub fn boundary_after(pieces: &Vec<(usize, String)>, text: &str, offset: usize) -> (r: usize)
    requires
        tiles(pieces.deep_view(), text@),
    ensures
        r == step_right(pieces.deep_view(), text@, offset as int),
{
    let end = offset::text_len(text);
    let mut k: usize = 0;
    while k < pieces.len()
        invariant
            tiles(pieces.deep_view(), text@),
            end == offset::byte_len(text@),
            k <= pieces.len(),
            step_right(pieces.deep_view(), text@, offset as int) == first_end_after(
                pieces.deep_view(),
                text@,
                offset as int,
                k as int,
            ),
        decreases pieces.len() - k,
    {
        assert(pieces.deep_view()[k as int] == (pieces@[k as int].0, pieces@[k as int].1@));
        if pieces[k].0 > offset {
            return pieces[k].0;
        }
        if pieces[k].0 == offset {
            proof {
                lemma_piece_offsets(pieces.deep_view(), text@, k as int);
                lemma_piece_offsets(pieces.deep_view(), text@, k + 1);
            }
            return pieces[k].0 + offset::text_len(pieces[k].1.as_str());
        }
        k += 1;
    }
    end
}

// ------------------------------------------------------------------- model --

/// A text field: its text, the offsets of its selection, which end of that the
/// caret is on, and the offsets of what the input method is still composing.
#[verifier::ext_equal]
pub ghost struct ComposerModel {
    pub content: Seq<char>,
    pub placeholder: Seq<char>,
    pub start: int,
    pub end: int,
    pub reversed: bool,
    pub marked: Option<(int, int)>,
    pub selecting: bool,
}

/// `content` with what stands between the byte offsets `start` and `end`
/// replaced by `new`.
pub open spec fn spliced(content: Seq<char>, start: int, end: int, new: Seq<char>) -> Seq<char> {
    content.take(offset::chars_before(content, start)) + new + content.skip(
        offset::chars_before(content, end),
    )
}

/// A range that does not run backwards, if there is one.
pub open spec fn in_order(range: Option<(int, int)>) -> bool {
    range matches Some((a, b)) ==> a <= b
}

/// A new line becomes a space: the field has one line.
pub open spec fn one_line(text: Seq<char>) -> Seq<char> {
    Seq::new(text.len(), |i: int| if text[i] == '\n' { ' ' } else { text[i] })
}

impl ComposerModel {
    /// The ends of the selection are in order and lie between characters.
    pub open spec fn selection_valid(self) -> bool {
        &&& 0 <= self.start <= self.end
        &&& offset::boundary(self.content, self.start)
        &&& offset::boundary(self.content, self.end)
    }

    /// The ends of the composed text are in order and lie between characters.
    pub open spec fn mark_valid(self) -> bool {
        self.marked matches Some((a, b)) ==> {
            &&& 0 <= a <= b
            &&& offset::boundary(self.content, a)
            &&& offset::boundary(self.content, b)
        }
    }

    pub open spec fn well_formed(self) -> bool {
        self.selection_valid() && self.mark_valid()
    }

    /// Nothing is selected.
    pub open spec fn collapsed(self) -> bool {
        !(self.start < self.end)
    }

    /// Where the caret is.
    pub open spec fn caret(self) -> int {
        if self.reversed {
            self.start
        } else {
            self.end
        }
    }

    /// What stands before the caret.
    pub open spec fn before_caret(self) -> Seq<char> {
        offset::upto(self.content, self.caret())
    }

    /// What stands behind the caret.
    pub open spec fn behind_caret(self) -> Seq<char> {
        offset::behind(self.content, self.caret())
    }

    /// The end of the selection that stays put while the other moves.
    pub open spec fn fixed_end(self) -> int {
        if self.reversed {
            self.end
        } else {
            self.start
        }
    }

    /// With the caret put at `n` and nothing selected.
    pub open spec fn moved_to(self, n: int) -> ComposerModel {
        ComposerModel { start: n, end: n, ..self }
    }

    /// With the caret moved to `n` and the selection stretched after it.
    pub open spec fn selected_to(self, n: int) -> ComposerModel {
        let fixed = self.fixed_end();
        ComposerModel {
            start: if n < fixed {
                n
            } else {
                fixed
            },
            end: if n < fixed {
                fixed
            } else {
                n
            },
            reversed: n < fixed || (self.reversed && n == fixed),
            ..self
        }
    }

    /// What an edit applies to when the platform does not say: the composed
    /// text, else the selection.
    pub open spec fn target(self) -> (int, int) {
        match self.marked {
            Some(m) => m,
            None => (self.start, self.end),
        }
    }

    /// What an edit applies to, where the platform may name it in UTF-16 units.
    pub open spec fn target_of(self, range: Option<(int, int)>) -> (int, int) {
        match range {
            Some((a, b)) => (
                offset::from_utf16(self.content, a),
                offset::from_utf16(self.content, b),
            ),
            None => self.target(),
        }
    }

    /// What an edit applies to lies between characters.
    pub open spec fn editable(self) -> bool {
        offset::boundary(self.content, self.target().0) && offset::boundary(
            self.content,
            self.target().1,
        )
    }

    /// With `new` in place of the target, and the caret behind it.
    pub open spec fn replaced(self, target: (int, int), new: Seq<char>) -> ComposerModel {
        let caret = target.0 + offset::byte_len(new);
        ComposerModel {
            content: spliced(self.content, target.0, target.1, new),
            start: caret,
            end: caret,
            marked: None,
            ..self
        }
    }

    /// With `new` in place of the target, still being composed. A selection
    /// asked for is in UTF-16 units of the new text, and lies within it.
    pub open spec fn composed(
        self,
        target: (int, int),
        new: Seq<char>,
        selection: Option<(int, int)>,
    ) -> ComposerModel {
        let content = spliced(self.content, target.0, target.1, new);
        let behind = target.0 + offset::byte_len(new);
        let (start, end) = match selection {
            Some((a, b)) => (
                target.0 + offset::from_utf16(new, a),
                target.0 + offset::from_utf16(new, b),
            ),
            None => (behind, behind),
        };
        ComposerModel {
            content,
            start,
            end,
            marked: if new.len() == 0 {
                None
            } else {
                Some((target.0, behind))
            },
            ..self
        }
    }

    /// The text between the ends of the selection.
    pub open spec fn selected_text(self) -> Seq<char> {
        self.content.subrange(
            offset::chars_before(self.content, self.start),
            offset::chars_before(self.content, self.end),
        )
    }

    /// Holding `new` and nothing else, the caret at its end.
    pub open spec fn with_text(self, new: Seq<char>) -> ComposerModel {
        let end = offset::byte_len(new) as int;
        ComposerModel {
            content: new,
            start: end,
            end,
            reversed: false,
            marked: None,
            ..self
        }
    }

    /// After the left arrow.
    pub open spec fn left(self, pieces: Seq<(usize, Seq<char>)>) -> ComposerModel {
        self.moved_to(
            if self.collapsed() {
                step_left(pieces, self.caret())
            } else {
                self.start
            },
        )
    }

    /// After the right arrow.
    pub open spec fn right(self, pieces: Seq<(usize, Seq<char>)>) -> ComposerModel {
        self.moved_to(
            if self.collapsed() {
                step_right(pieces, self.content, self.end)
            } else {
                self.end
            },
        )
    }

    /// After backspace.
    pub open spec fn backspaced(self, pieces: Seq<(usize, Seq<char>)>) -> ComposerModel {
        let m = if self.collapsed() {
            self.selected_to(step_left(pieces, self.caret()))
        } else {
            self
        };
        m.replaced(m.target(), Seq::empty())
    }

    /// After delete.
    pub open spec fn deleted(self, pieces: Seq<(usize, Seq<char>)>) -> ComposerModel {
        let m = if self.collapsed() {
            self.selected_to(step_right(pieces, self.content, self.caret()))
        } else {
            self
        };
        m.replaced(m.target(), Seq::empty())
    }

    /// After pasting `text`.
    pub open spec fn pasted(self, text: Seq<char>) -> ComposerModel {
        self.replaced(self.target(), one_line(text))
    }

    /// What the field shows.
    pub open spec fn shown(self) -> Seq<char> {
        if self.content.len() == 0 {
            self.placeholder
        } else {
            self.content
        }
    }
}

// -------------------------------------------------------------------- laws --

proof fn lemma_spliced(content: Seq<char>, start: int, end: int, new: Seq<char>)
    requires
        offset::boundary(content, start),
        offset::boundary(content, end),
    ensures
        offset::boundary(spliced(content, start, end, new), start),
        offset::boundary(
            spliced(content, start, end, new),
            start + offset::byte_len(new),
        ),
        start + offset::byte_len(new) <= offset::byte_len(spliced(content, start, end, new)),
        start >= 0,
{
    let k = offset::chars_before(content, start);
    let a = content.take(k);
    let rest = content.skip(offset::chars_before(content, end));
    let made = spliced(content, start, end, new);
    assert(a.take(k) =~= a);
    assert(made.take(k) =~= a);
    offset::lemma_prefix_offset(content, a, k);
    offset::lemma_prefix_offset(made, a, k);
    offset::lemma_chars_before(made, k);
    offset::lemma_concat_bytes(a, new, new.len() as int);
    offset::lemma_concat_bytes(a + new, rest, 0);
    let behind = (a + new).len() as int;
    offset::lemma_chars_before(made, behind);
    offset::lemma_offsets_grow(made, behind, made.len() as int);
}

/// An edit leaves the caret, the selection an input method asks for, and
/// whatever is still being composed, between characters; and where nothing was
/// asked for, the caret is behind the new text.
pub proof fn edits_keep_the_caret_between_characters(
    m: ComposerModel,
    target: (int, int),
    new: Seq<char>,
)
    requires
        offset::boundary(m.content, target.0),
        offset::boundary(m.content, target.1),
    ensures
        m.replaced(target, new).well_formed(),
        m.replaced(target, new).collapsed(),
        m.composed(target, new, None).well_formed(),
        m.composed(target, new, None).collapsed(),
        forall|s: Option<(int, int)>| #[trigger] m.composed(target, new, s).mark_valid(),
        forall|a: int, b: int|
            a <= b ==> (#[trigger] m.composed(target, new, Some((a, b)))).well_formed(),
{
    lemma_spliced(m.content, target.0, target.1, new);
    assert forall|a: int, b: int| a <= b implies (#[trigger] m.composed(
        target,
        new,
        Some((a, b)),
    )).well_formed() by {
        lemma_inside_spliced(m.content, target, new, a);
        lemma_inside_spliced(m.content, target, new, b);
        offset::lemma_utf16_ascends(new, a, b);
    }
}

/// An offset within the new text, counted from where that starts, lies between
/// characters of the whole.
proof fn lemma_inside_spliced(content: Seq<char>, target: (int, int), new: Seq<char>, units: int)
    requires
        offset::boundary(content, target.0),
        offset::boundary(content, target.1),
    ensures
        offset::boundary(
            spliced(content, target.0, target.1, new),
            target.0 + offset::from_utf16(new, units),
        ),
{
    offset::utf16_offsets_land_between_characters(new, units);
    let k = offset::chars_before(content, target.0);
    let j = offset::chars_before(new, offset::from_utf16(new, units));
    let a = content.take(k);
    let made = spliced(content, target.0, target.1, new);
    assert(a.take(k) =~= a);
    assert(content.take(k) =~= a.take(k));
    offset::lemma_prefix_offset(content, a, k);
    offset::lemma_concat_bytes(a, new, j);
    assert(made.take(k + j) =~= (a + new).take(k + j));
    offset::lemma_prefix_offset(made, a + new, k + j);
    offset::lemma_chars_before(made, k + j);
}

/// Moving, selecting and setting keep the field well formed, wherever between
/// characters the caret goes.
pub proof fn moves_keep_the_caret_between_characters(m: ComposerModel, n: int, text: Seq<char>)
    requires
        m.well_formed(),
        offset::boundary(m.content, n),
    ensures
        m.moved_to(n).well_formed(),
        m.selected_to(n).well_formed(),
        m.selected_to(n).caret() == n,
        m.selected_to(n).fixed_end() == m.fixed_end(),
        m.with_text(text).well_formed(),
{
    offset::lemma_chars_before(text, text.len() as int);
}

/// What was cut can be pasted back: the text is what it was, with the caret
/// behind what came back. Text with a new line comes back on one line, so it is
/// left out; and while something is being composed an edit replaces that
/// instead.
pub proof fn cutting_and_pasting_restores_the_text(m: ComposerModel)
    requires
        m.well_formed(),
        m.marked is None,
        !m.collapsed(),
        !m.selected_text().contains('\n'),
    ensures
        ({
            let cut = m.replaced(m.target(), Seq::empty());
            let back = cut.pasted(m.selected_text());
            &&& back.content == m.content
            &&& back.start == m.end
            &&& back.end == m.end
        }),
{
    let i = offset::chars_before(m.content, m.start);
    let j = offset::chars_before(m.content, m.end);
    let part = m.selected_text();
    if j < i {
        offset::lemma_offsets_grow(m.content, j, i);
    }
    let cut = m.replaced(m.target(), Seq::empty());
    lemma_spliced(m.content, m.start, m.end, Seq::empty());
    assert(offset::byte_len(Seq::<char>::empty()) == 0);
    assert(one_line(part) =~= part) by {
        assert forall|k: int| 0 <= k < part.len() implies part[k] != '\n' by {
            if part[k] == '\n' {
                assert(part.contains('\n'));
            }
        }
    }
    // The caret is where the text was cut.
    let a = m.content.take(i);
    assert(cut.content.take(i) =~= a);
    assert(a.take(i) =~= a);
    assert(m.content.take(i) =~= cut.content.take(i));
    offset::lemma_prefix_offset(m.content, cut.content, i);
    offset::lemma_chars_before(cut.content, i);
    let back = cut.pasted(part);
    assert(back.content =~= m.content);
    // And behind the piece is where the selection ended.
    assert(m.content.take(j) =~= a + part);
    offset::lemma_concat_bytes(a, part, part.len() as int);
    assert((a + part).take(j) =~= a + part);
    offset::lemma_prefix_offset(m.content, a + part, j);
    assert(m.content.take(i).take(i) =~= a);
    offset::lemma_prefix_offset(m.content, a, i);
}

// -------------------------------------------------------------------- code --

pub struct Composer {
    pub content: String,
    pub placeholder: String,
    selected_range: Range<usize>,
    selection_reversed: bool,
    /// Text the input method is still composing. Underlined, and not yet
    /// committed.
    marked_range: Option<Range<usize>>,
    is_selecting: bool,
}

/// A stretch of the shown text that is painted alike.
#[derive(Clone, Copy, Debug, PartialEq, Eq, Structural)]
pub struct TextRun {
    /// In bytes.
    pub len: usize,
    pub underline: bool,
}

/// A selection in the units of the platform's text system.
#[derive(Debug)]
pub struct Utf16Selection {
    pub range: Range<usize>,
    pub reversed: bool,
}

/// The runs that are not empty.
pub open spec fn not_empty(runs: Seq<TextRun>) -> Seq<TextRun> {
    runs.filter(|r: TextRun| r.len > 0)
}

/// How the shown text is painted: what is still being composed is underlined.
pub open spec fn runs_of(shown: usize, marked: Option<(int, int)>) -> Seq<TextRun> {
    match marked {
        None => seq![TextRun { len: shown, underline: false }],
        Some((a, b)) => not_empty(
            seq![
                TextRun { len: a as usize, underline: false },
                TextRun { len: (b - a) as usize, underline: true },
                TextRun { len: (shown - b) as usize, underline: false },
            ],
        ),
    }
}

pub open spec fn pair(range: Range<usize>) -> (int, int) {
    (range.start as int, range.end as int)
}

pub open spec fn pair_of(range: Option<Range<usize>>) -> Option<(int, int)> {
    match range {
        Some(r) => Some(pair(r)),
        None => None,
    }
}

impl DeepView for Composer {
    type V = ComposerModel;

    closed spec fn deep_view(&self) -> ComposerModel {
        ComposerModel {
            content: self.content@,
            placeholder: self.placeholder@,
            start: self.selected_range.start as int,
            end: self.selected_range.end as int,
            reversed: self.selection_reversed,
            marked: pair_of(self.marked_range),
            selecting: self.is_selecting,
        }
    }
}

impl Composer {
    pub fn new(placeholder: &str) -> (r: Self)
        ensures
            r.deep_view() == (ComposerModel {
                content: Seq::empty(),
                placeholder: placeholder@,
                start: 0,
                end: 0,
                reversed: false,
                marked: None,
                selecting: false,
            }),
            r.deep_view().well_formed(),
    {
        let r = Self {
            content: String::new(),
            placeholder: placeholder.to_owned(),
            selected_range: 0..0,
            selection_reversed: false,
            marked_range: None,
            is_selecting: false,
        };
        proof {
            offset::lemma_chars_before(r.content@, 0);
        }
        r
    }

    pub fn text(&self) -> (r: &str)
        ensures
            r@ == self.deep_view().content,
    {
        self.content.as_str()
    }

    pub fn is_empty(&self) -> (r: bool)
        ensures
            r == (self.deep_view().content.len() == 0),
    {
        let n = offset::text_len(self.content.as_str());
        proof {
            offset::lemma_offsets_grow(self.content@, 0, self.content@.len() as int);
        }
        n == 0
    }

    pub fn clear(&mut self) -> (r: ComposerEvent)
        ensures
            final(self).deep_view() == old(self).deep_view().with_text(Seq::empty()),
            r == ComposerEvent::Changed,
    {
        proof {
            reveal_strlit("");
            assert(""@ =~= Seq::<char>::empty());
        }
        self.set_text("")
    }

    pub fn set_text(&mut self, text: &str) -> (r: ComposerEvent)
        ensures
            final(self).deep_view() == old(self).deep_view().with_text(text@),
            r == ComposerEvent::Changed,
    {
        self.content = text.to_owned();
        let end = offset::text_len(text);
        self.selected_range = end..end;
        self.selection_reversed = false;
        self.marked_range = None;
        ComposerEvent::Changed
    }

    // ------------------------------------------------------------- actions --

    pub fn left(&mut self)
        ensures
            final(self).deep_view() == old(self).deep_view().left(
                graphemes(old(self).deep_view().content),
            ),
            old(self).deep_view().well_formed() ==> final(self).deep_view().well_formed(),
    {
        if self.selected_range.start >= self.selected_range.end {
            let to = self.previous_boundary(self.cursor_offset());
            self.move_to(to);
        } else {
            self.move_to(self.selected_range.start);
        }
    }

    pub fn right(&mut self)
        ensures
            final(self).deep_view() == old(self).deep_view().right(
                graphemes(old(self).deep_view().content),
            ),
            old(self).deep_view().well_formed() ==> final(self).deep_view().well_formed(),
    {
        if self.selected_range.start >= self.selected_range.end {
            let to = self.next_boundary(self.selected_range.end);
            self.move_to(to);
        } else {
            self.move_to(self.selected_range.end);
        }
    }

    pub fn select_left(&mut self)
        ensures
            final(self).deep_view() == old(self).deep_view().selected_to(
                step_left(
                    graphemes(old(self).deep_view().content),
                    old(self).deep_view().caret(),
                ),
            ),
            old(self).deep_view().well_formed() ==> final(self).deep_view().well_formed(),
    {
        let to = self.previous_boundary(self.cursor_offset());
        self.select_to(to);
    }

    pub fn select_right(&mut self)
        ensures
            final(self).deep_view() == old(self).deep_view().selected_to(
                step_right(
                    graphemes(old(self).deep_view().content),
                    old(self).deep_view().content,
                    old(self).deep_view().caret(),
                ),
            ),
            old(self).deep_view().well_formed() ==> final(self).deep_view().well_formed(),
    {
        let to = self.next_boundary(self.cursor_offset());
        self.select_to(to);
    }

    pub fn select_all(&mut self)
        ensures
            final(self).deep_view() == old(self).deep_view().moved_to(0).selected_to(
                offset::byte_len(old(self).deep_view().content) as int,
            ),
            final(self).deep_view().start == 0,
            final(self).deep_view().end == offset::byte_len(old(self).deep_view().content),
            old(self).deep_view().well_formed() ==> final(self).deep_view().well_formed(),
    {
        self.move_to(0);
        let end = offset::text_len(self.content.as_str());
        self.select_to(end);
        proof {
            offset::lemma_chars_before(self.content@, 0);
            offset::lemma_chars_before(self.content@, self.content@.len() as int);
        }
    }

    pub fn home(&mut self)
        ensures
            final(self).deep_view() == old(self).deep_view().moved_to(0),
            old(self).deep_view().well_formed() ==> final(self).deep_view().well_formed(),
    {
        self.move_to(0);
        proof {
            offset::lemma_chars_before(self.content@, 0);
        }
    }

    pub fn end(&mut self)
        ensures
            final(self).deep_view() == old(self).deep_view().moved_to(
                offset::byte_len(old(self).deep_view().content) as int,
            ),
            old(self).deep_view().well_formed() ==> final(self).deep_view().well_formed(),
    {
        let end = offset::text_len(self.content.as_str());
        self.move_to(end);
        proof {
            offset::lemma_chars_before(self.content@, self.content@.len() as int);
        }
    }

    pub fn backspace(&mut self) -> (r: ComposerEvent)
        requires
            old(self).deep_view().editable(),
        ensures
            final(self).deep_view() == old(self).deep_view().backspaced(
                graphemes(old(self).deep_view().content),
            ),
            final(self).deep_view().well_formed(),
            r == ComposerEvent::Changed,
    {
        if self.selected_range.start >= self.selected_range.end {
            let to = self.previous_boundary(self.cursor_offset());
            self.select_to(to);
        }
        self.replace_with_nothing()
    }

    pub fn delete(&mut self) -> (r: ComposerEvent)
        requires
            old(self).deep_view().editable(),
        ensures
            final(self).deep_view() == old(self).deep_view().deleted(
                graphemes(old(self).deep_view().content),
            ),
            final(self).deep_view().well_formed(),
            r == ComposerEvent::Changed,
    {
        if self.selected_range.start >= self.selected_range.end {
            let to = self.next_boundary(self.cursor_offset());
            self.select_to(to);
        }
        self.replace_with_nothing()
    }

    /// Puts the clipboard's text in place of the selection.
    pub fn paste(&mut self, text: &str) -> (r: ComposerEvent)
        requires
            old(self).deep_view().editable(),
        ensures
            final(self).deep_view() == old(self).deep_view().pasted(text@),
            final(self).deep_view().well_formed(),
            r == ComposerEvent::Changed,
    {
        // Single-line field: a pasted newline becomes a space rather than
        // silently truncating what someone pasted.
        let mut line = String::new();
        for c in it: text.chars()
            invariant
                it.seq() == text@,
                line@ == one_line(text@).take(it.index() as int),
        {
            line.push(
                if c == '\n' {
                    ' '
                } else {
                    c
                },
            );
            assert(one_line(text@).take(it.index() + 1) =~= one_line(text@).take(
                it.index() as int,
            ).push(one_line(text@)[it.index() as int]));
        }
        assert(line@ =~= one_line(text@));
        self.replace_text_in_range(None, line.as_str())
    }

    /// What goes to the clipboard, if anything is selected.
    pub fn copy(&self) -> (r: Option<String>)
        requires
            !self.deep_view().collapsed() ==> self.deep_view().selection_valid(),
        ensures
            r.deep_view() == (if self.deep_view().collapsed() {
                None
            } else {
                Some(self.deep_view().selected_text())
            }),
    {
        if self.selected_range.start < self.selected_range.end {
            Some(
                offset::slice_bytes(
                    self.content.as_str(),
                    self.selected_range.start,
                    self.selected_range.end,
                ),
            )
        } else {
            None
        }
    }

    /// What goes to the clipboard, if anything is selected. That is then gone
    /// from the text, unless an input method is composing: its text goes
    /// instead.
    pub fn cut(&mut self) -> (r: Option<(String, ComposerEvent)>)
        requires
            !old(self).deep_view().collapsed() ==> old(self).deep_view().selection_valid()
                && old(self).deep_view().editable(),
        ensures
            match r {
                None => old(self).deep_view().collapsed() && final(self).deep_view() == old(
                    self,
                ).deep_view(),
                Some((taken, event)) => {
                    &&& !old(self).deep_view().collapsed()
                    &&& taken@ == old(self).deep_view().selected_text()
                    &&& event == ComposerEvent::Changed
                    &&& final(self).deep_view() == old(self).deep_view().replaced(
                        old(self).deep_view().target(),
                        Seq::empty(),
                    )
                    &&& final(self).deep_view().well_formed()
                },
            },
    {
        match self.copy() {
            Some(taken) => {
                let event = self.replace_with_nothing();
                Some((taken, event))
            },
            None => None,
        }
    }

    pub fn submit(&self) -> (r: ComposerEvent)
        ensures
            r == ComposerEvent::Submit,
    {
        ComposerEvent::Submit
    }

    pub fn cancel(&self) -> (r: ComposerEvent)
        ensures
            r == ComposerEvent::Cancel,
    {
        ComposerEvent::Cancel
    }

    pub fn complete(&self) -> (r: ComposerEvent)
        ensures
            r == ComposerEvent::Complete,
    {
        ComposerEvent::Complete
    }

    pub fn move_up(&self) -> (r: ComposerEvent)
        ensures
            r == ComposerEvent::MoveUp,
    {
        ComposerEvent::MoveUp
    }

    pub fn move_down(&self) -> (r: ComposerEvent)
        ensures
            r == ComposerEvent::MoveDown,
    {
        ComposerEvent::MoveDown
    }

    // --------------------------------------------------------------- mouse --

    /// The button went down over what the layout calls `hit`.
    pub fn on_mouse_down(&mut self, shift: bool, hit: Option<usize>)
        ensures
            final(self).deep_view() == ({
                let m = ComposerModel { selecting: true, ..old(self).deep_view() };
                if shift {
                    m.selected_to(m.index_for(hit))
                } else {
                    m.moved_to(m.index_for(hit))
                }
            }),
    {
        self.is_selecting = true;
        let to = self.index_for_mouse_position(hit);
        if shift {
            self.select_to(to);
        } else {
            self.move_to(to);
        }
    }

    pub fn on_mouse_up(&mut self)
        ensures
            final(self).deep_view() == (ComposerModel {
                selecting: false,
                ..old(self).deep_view()
            }),
    {
        self.is_selecting = false;
    }

    /// The pointer moved over what the layout calls `hit`.
    pub fn on_mouse_move(&mut self, hit: Option<usize>)
        ensures
            final(self).deep_view() == (if old(self).deep_view().selecting {
                old(self).deep_view().selected_to(old(self).deep_view().index_for(hit))
            } else {
                old(self).deep_view()
            }),
    {
        if self.is_selecting {
            let to = self.index_for_mouse_position(hit);
            self.select_to(to);
        }
    }

    /// The offset a click means. `hit` is the offset the layout finds closest
    /// to it; there is none before the first layout, nor above the first line.
    pub fn index_for_mouse_position(&self, hit: Option<usize>) -> (r: usize)
        ensures
            r == self.deep_view().index_for(hit),
    {
        if self.is_empty() {
            return 0;
        }
        match hit {
            Some(offset) => offset,
            None => 0,
        }
    }

    // ------------------------------------------------------------ movement --

    pub fn move_to(&mut self, offset: usize)
        ensures
            final(self).deep_view() == old(self).deep_view().moved_to(offset as int),
    {
        self.selected_range = offset..offset;
    }

    pub fn cursor_offset(&self) -> (r: usize)
        ensures
            r == self.deep_view().caret(),
    {
        if self.selection_reversed {
            self.selected_range.start
        } else {
            self.selected_range.end
        }
    }

    /// What stands before the caret.
    pub fn text_before_caret(&self) -> (r: String)
        ensures
            r@ == self.deep_view().before_caret(),
    {
        let at = offset::split_index(self.content.as_str(), self.cursor_offset());
        let chars = text::to_chars(self.content.as_str());
        let r = text::from_chars(&chars, 0, at);
        assert(r@ =~= self.deep_view().before_caret());
        r
    }

    /// What stands behind the caret.
    pub fn text_behind_caret(&self) -> (r: String)
        ensures
            r@ == self.deep_view().behind_caret(),
    {
        let at = offset::split_index(self.content.as_str(), self.cursor_offset());
        let chars = text::to_chars(self.content.as_str());
        let r = text::from_chars(&chars, at, chars.len());
        assert(r@ =~= self.deep_view().behind_caret());
        r
    }

    pub fn select_to(&mut self, offset: usize)
        ensures
            final(self).deep_view() == old(self).deep_view().selected_to(offset as int),
    {
        if self.selection_reversed {
            self.selected_range.start = offset;
        } else {
            self.selected_range.end = offset;
        }
        if self.selected_range.end < self.selected_range.start {
            self.selection_reversed = !self.selection_reversed;
            self.selected_range = self.selected_range.end..self.selected_range.start;
        }
    }

    pub fn previous_boundary(&self, offset: usize) -> (r: usize)
        ensures
            r == step_left(graphemes(self.deep_view().content), offset as int),
            r <= offset::byte_len(self.deep_view().content),
            offset::boundary(self.deep_view().content, r as int),
    {
        let pieces = grapheme_indices(self.content.as_str());
        proof {
            steps_land_between_characters(pieces.deep_view(), self.content@, offset as int);
        }
        boundary_before(&pieces, offset)
    }

    pub fn next_boundary(&self, offset: usize) -> (r: usize)
        ensures
            r == step_right(
                graphemes(self.deep_view().content),
                self.deep_view().content,
                offset as int,
            ),
            r <= offset::byte_len(self.deep_view().content),
            offset::boundary(self.deep_view().content, r as int),
    {
        let pieces = grapheme_indices(self.content.as_str());
        proof {
            steps_land_between_characters(pieces.deep_view(), self.content@, offset as int);
        }
        boundary_after(&pieces, self.content.as_str(), offset)
    }

    pub fn offset_from_utf16(&self, offset: usize) -> (r: usize)
        ensures
            r == offset::from_utf16(self.deep_view().content, offset as int),
    {
        offset::offset_from_utf16(self.content.as_str(), offset)
    }

    pub fn offset_to_utf16(&self, offset: usize) -> (r: usize)
        ensures
            r == offset::to_utf16(self.deep_view().content, offset as int),
    {
        offset::offset_to_utf16(self.content.as_str(), offset)
    }

    pub fn range_to_utf16(&self, range: &Range<usize>) -> (r: Range<usize>)
        ensures
            r.start == offset::to_utf16(self.deep_view().content, range.start as int),
            r.end == offset::to_utf16(self.deep_view().content, range.end as int),
    {
        self.offset_to_utf16(range.start)..self.offset_to_utf16(range.end)
    }

    pub fn range_from_utf16(&self, range: &Range<usize>) -> (r: Range<usize>)
        ensures
            r.start == offset::from_utf16(self.deep_view().content, range.start as int),
            r.end == offset::from_utf16(self.deep_view().content, range.end as int),
    {
        self.offset_from_utf16(range.start)..self.offset_from_utf16(range.end)
    }

    // -------------------------------------------------------- text system --

    /// The text the platform asks for, and in `actual_range` where it really
    /// is. A range that runs backwards has none.
    pub fn text_for_range(
        &self,
        range_utf16: Range<usize>,
        actual_range: &mut Option<Range<usize>>,
    ) -> (r: Option<String>)
        ensures
            ({
                let content = self.deep_view().content;
                let a = offset::from_utf16(content, range_utf16.start as int);
                let b = offset::from_utf16(content, range_utf16.end as int);
                &&& pair_of(*final(actual_range)) == Some(
                    (offset::to_utf16(content, a), offset::to_utf16(content, b)),
                )
                &&& r.deep_view() == (if a <= b {
                    Some(
                        content.subrange(
                            offset::chars_before(content, a),
                            offset::chars_before(content, b),
                        ),
                    )
                } else {
                    None
                })
            }),
    {
        let range = self.range_from_utf16(&range_utf16);
        proof {
            offset::utf16_offsets_land_between_characters(
                self.content@,
                range_utf16.start as int,
            );
            offset::utf16_offsets_land_between_characters(self.content@, range_utf16.end as int);
        }
        *actual_range = Some(self.range_to_utf16(&range));
        if range.start <= range.end {
            Some(offset::slice_bytes(self.content.as_str(), range.start, range.end))
        } else {
            None
        }
    }

    pub fn selected_text_range(&self) -> (r: Utf16Selection)
        ensures
            r.range.start == offset::to_utf16(self.deep_view().content, self.deep_view().start),
            r.range.end == offset::to_utf16(self.deep_view().content, self.deep_view().end),
            r.reversed == self.deep_view().reversed,
    {
        Utf16Selection {
            range: self.range_to_utf16(&self.selected_range),
            reversed: self.selection_reversed,
        }
    }

    pub fn marked_text_range(&self) -> (r: Option<Range<usize>>)
        ensures
            pair_of(r) == (match self.deep_view().marked {
                Some((a, b)) => Some(
                    (
                        offset::to_utf16(self.deep_view().content, a),
                        offset::to_utf16(self.deep_view().content, b),
                    ),
                ),
                None => None,
            }),
    {
        match &self.marked_range {
            Some(range) => Some(self.range_to_utf16(range)),
            None => None,
        }
    }

    pub fn unmark_text(&mut self)
        ensures
            final(self).deep_view() == (ComposerModel { marked: None, ..old(self).deep_view() }),
    {
        self.marked_range = None;
    }

    /// What an edit applies to: where the platform says, else the composed
    /// text, else the selection.
    fn edited_range(&self, range_utf16: Option<Range<usize>>) -> (r: Range<usize>)
        ensures
            pair(r) == self.deep_view().target_of(pair_of(range_utf16)),
            range_utf16 is Some ==> offset::boundary(self.deep_view().content, r.start as int)
                && offset::boundary(self.deep_view().content, r.end as int),
    {
        match range_utf16 {
            Some(range) => {
                proof {
                    offset::utf16_offsets_land_between_characters(
                        self.content@,
                        range.start as int,
                    );
                    offset::utf16_offsets_land_between_characters(self.content@, range.end as int);
                }
                self.range_from_utf16(&range)
            },
            None => match &self.marked_range {
                Some(range) => range.start..range.end,
                None => self.selected_range.start..self.selected_range.end,
            },
        }
    }

    /// Puts `new_text` where `range` was, and says how long the text is now.
    fn splice(&mut self, range: &Range<usize>, new_text: &str) -> (r: usize)
        requires
            offset::boundary(old(self).deep_view().content, range.start as int),
            offset::boundary(old(self).deep_view().content, range.end as int),
        ensures
            final(self).deep_view() == (ComposerModel {
                content: spliced(
                    old(self).deep_view().content,
                    range.start as int,
                    range.end as int,
                    new_text@,
                ),
                ..old(self).deep_view()
            }),
            r == offset::byte_len(final(self).deep_view().content),
            range.start + offset::byte_len(new_text@) <= r,
    {
        let ghost before = self.content@;
        let chars = text::to_chars(self.content.as_str());
        let i = offset::char_index(self.content.as_str(), range.start);
        let j = offset::char_index(self.content.as_str(), range.end);
        let mut content = text::from_chars(&chars, 0, i);
        content.append(new_text);
        let rest = text::from_chars(&chars, j, chars.len());
        content.append(rest.as_str());
        assert(content@ =~= spliced(before, range.start as int, range.end as int, new_text@));
        proof {
            lemma_spliced(before, range.start as int, range.end as int, new_text@);
        }
        self.content = content;
        offset::text_len(self.content.as_str())
    }

    fn replace_with_nothing(&mut self) -> (r: ComposerEvent)
        requires
            old(self).deep_view().editable(),
        ensures
            final(self).deep_view() == old(self).deep_view().replaced(
                old(self).deep_view().target(),
                Seq::empty(),
            ),
            final(self).deep_view().well_formed(),
            r == ComposerEvent::Changed,
    {
        proof {
            reveal_strlit("");
            assert(""@ =~= Seq::<char>::empty());
        }
        self.replace_text_in_range(None, "")
    }

    /// Types `new_text` over the range, or over the selection.
    pub fn replace_text_in_range(
        &mut self,
        range_utf16: Option<Range<usize>>,
        new_text: &str,
    ) -> (r: ComposerEvent)
        requires
            range_utf16 is None ==> old(self).deep_view().editable(),
        ensures
            final(self).deep_view() == old(self).deep_view().replaced(
                old(self).deep_view().target_of(pair_of(range_utf16)),
                new_text@,
            ),
            final(self).deep_view().well_formed(),
            r == ComposerEvent::Changed,
    {
        let range = self.edited_range(range_utf16);
        proof {
            edits_keep_the_caret_between_characters(self.deep_view(), pair(range), new_text@);
        }
        self.splice(&range, new_text);
        let caret = range.start + offset::text_len(new_text);
        self.selected_range = caret..caret;
        self.marked_range = None;
        ComposerEvent::Changed
    }

    /// Puts what the input method has so far over the range, or over what it
    /// had before.
    pub fn replace_and_mark_text_in_range(
        &mut self,
        range_utf16: Option<Range<usize>>,
        new_text: &str,
        new_selected_range_utf16: Option<Range<usize>>,
    ) -> (r: ComposerEvent)
        requires
            range_utf16 is None ==> old(self).deep_view().editable(),
        ensures
            final(self).deep_view() == old(self).deep_view().composed(
                old(self).deep_view().target_of(pair_of(range_utf16)),
                new_text@,
                pair_of(new_selected_range_utf16),
            ),
            final(self).deep_view().mark_valid(),
            in_order(pair_of(new_selected_range_utf16)) ==> final(self).deep_view().well_formed(),
            r == ComposerEvent::Changed,
    {
        let range = self.edited_range(range_utf16);
        proof {
            edits_keep_the_caret_between_characters(self.deep_view(), pair(range), new_text@);
        }
        self.splice(&range, new_text);
        let behind = range.start + offset::text_len(new_text);
        proof {
            offset::lemma_offsets_grow(new_text@, 0, new_text@.len() as int);
        }
        self.marked_range = if behind > range.start {
            Some(range.start..behind)
        } else {
            None
        };
        self.selected_range = match new_selected_range_utf16 {
            Some(selected) => {
                proof {
                    offset::utf16_offsets_land_between_characters(
                        new_text@,
                        selected.start as int,
                    );
                    offset::utf16_offsets_land_between_characters(new_text@, selected.end as int);
                }
                let start = offset::offset_from_utf16(new_text, selected.start);
                let end = offset::offset_from_utf16(new_text, selected.end);
                range.start + start..range.start + end
            },
            None => behind..behind,
        };
        ComposerEvent::Changed
    }

    // ---------------------------------------------------------- appearance --

    /// What the field shows: its text, or the placeholder while there is none.
    pub fn display_text(&self) -> (r: &str)
        ensures
            r@ == self.deep_view().shown(),
    {
        if self.is_empty() {
            self.placeholder.as_str()
        } else {
            self.content.as_str()
        }
    }

    /// How the shown text is painted.
    pub fn text_runs(&self) -> (r: Vec<TextRun>)
        requires
            self.deep_view().mark_valid(),
        ensures
            r@ == runs_of(
                offset::byte_len(self.deep_view().shown()) as usize,
                self.deep_view().marked,
            ),
    {
        let shown = offset::text_len(self.display_text());
        let mut runs: Vec<TextRun> = Vec::new();
        match &self.marked_range {
            None => {
                runs.push(TextRun { len: shown, underline: false });
            },
            Some(marked) => {
                let ghost content = self.content@;
                proof {
                    let k = offset::chars_before(content, marked.end as int);
                    offset::lemma_offsets_grow(content, k, content.len() as int);
                    offset::lemma_offsets_grow(
                        self.deep_view().shown(),
                        0,
                        self.deep_view().shown().len() as int,
                    );
                }
                let a = TextRun { len: marked.start, underline: false };
                let b = TextRun { len: marked.end - marked.start, underline: true };
                let c = TextRun { len: shown - marked.end, underline: false };
                let ghost p = |r: TextRun| r.len > 0;
                if a.len > 0 {
                    runs.push(a);
                }
                assert(runs@ =~= seq![a].filter(p)) by {
                    reveal(Seq::filter);
                    assert(seq![a].drop_last() =~= Seq::<TextRun>::empty());
                    assert(Seq::<TextRun>::empty().filter(p) =~= Seq::<TextRun>::empty());
                }
                if b.len > 0 {
                    runs.push(b);
                }
                assert(runs@ =~= seq![a, b].filter(p)) by {
                    reveal(Seq::filter);
                    assert(seq![a, b].drop_last() =~= seq![a]);
                }
                if c.len > 0 {
                    runs.push(c);
                }
                assert(runs@ =~= seq![a, b, c].filter(p)) by {
                    reveal(Seq::filter);
                    assert(seq![a, b, c].drop_last() =~= seq![a, b]);
                }
            },
        }
        runs
    }

    // ---------------------------------------------------------- validity --

    /// The ends of the selection.
    pub fn selection(&self) -> (r: Range<usize>)
        ensures
            r.start == self.deep_view().start,
            r.end == self.deep_view().end,
    {
        self.selected_range.start..self.selected_range.end
    }

    /// Whether an edit can be made as things stand. Only an offset the layout
    /// reported can be in the way.
    pub fn accepts_edits(&self) -> (r: bool)
        ensures
            r == self.deep_view().editable(),
    {
        let content = self.content.as_str();
        match &self.marked_range {
            Some(m) => offset::is_boundary(content, m.start) && offset::is_boundary(content, m.end),
            None => offset::is_boundary(content, self.selected_range.start) && offset::is_boundary(
                content,
                self.selected_range.end,
            ),
        }
    }

    /// Whether a copy can be taken as things stand.
    pub fn accepts_copy(&self) -> (r: bool)
        ensures
            r == (self.deep_view().collapsed() || self.deep_view().selection_valid()),
    {
        let content = self.content.as_str();
        self.selected_range.start >= self.selected_range.end || (offset::is_boundary(
            content,
            self.selected_range.start,
        ) && offset::is_boundary(content, self.selected_range.end))
    }

    /// Whether the composed text lies within the text, so that it can be
    /// underlined.
    pub fn accepts_paint(&self) -> (r: bool)
        ensures
            r == self.deep_view().mark_valid(),
    {
        let content = self.content.as_str();
        match &self.marked_range {
            Some(m) => m.start <= m.end && offset::is_boundary(content, m.start)
                && offset::is_boundary(content, m.end),
            None => true,
        }
    }
}

impl ComposerModel {
    /// The offset a click means.
    pub open spec fn index_for(self, hit: Option<usize>) -> int {
        match hit {
            Some(offset) if self.content.len() > 0 => offset as int,
            _ => 0,
        }
    }
}

// ----------------------------------------------------- what an edit does --

/// Whether the field holds `a`, `s` and `b` one after another, with `s` selected and
/// nothing being composed.
pub open spec fn selects(m: ComposerModel, a: Seq<char>, s: Seq<char>, b: Seq<char>) -> bool {
    &&& m.content == a + s + b
    &&& m.start == offset::byte_len(a)
    &&& m.end == offset::byte_len(a + s)
    &&& m.marked is None
}

proof fn lemma_three_parts(a: Seq<char>, s: Seq<char>, b: Seq<char>)
    ensures
        ({
            let all = a + s + b;
            &&& offset::boundary(all, offset::byte_len(a) as int)
            &&& offset::boundary(all, offset::byte_len(a + s) as int)
            &&& offset::chars_before(all, offset::byte_len(a) as int) == a.len()
            &&& offset::chars_before(all, offset::byte_len(a + s) as int) == a.len() + s.len()
            &&& offset::upto(all, offset::byte_len(a) as int) == a
            &&& offset::behind(all, offset::byte_len(a) as int) == s + b
            &&& offset::upto(all, offset::byte_len(a + s) as int) == a + s
            &&& offset::behind(all, offset::byte_len(a + s) as int) == b
            &&& offset::from_utf16(all, offset::units_of(a) as int) == offset::byte_len(a)
            &&& offset::from_utf16(all, offset::units_of(a + s) as int) == offset::byte_len(a + s)
            &&& offset::byte_len(a + s) == offset::byte_len(a) + offset::byte_len(s)
            &&& s.len() > 0 ==> offset::byte_len(s) > 0
        }),
{
    let all = a + s + b;
    assert(a + (s + b) =~= all);
    offset::offsets_count_what_stands_before(a, ' ', s + b, 1);
    offset::offsets_count_what_stands_before(a + s, ' ', b, 1);
    offset::lemma_concat_bytes(a, s, s.len() as int);
    offset::lemma_offsets_grow(s, 0, s.len() as int);
}

proof fn lemma_splices(a: Seq<char>, s: Seq<char>, b: Seq<char>, new: Seq<char>)
    ensures
        spliced(
            a + s + b,
            offset::byte_len(a) as int,
            offset::byte_len(a + s) as int,
            new,
        ) == a + new + b,
        offset::byte_len(a + new) == offset::byte_len(a) + offset::byte_len(new),
{
    let all = a + s + b;
    lemma_three_parts(a, s, b);
    assert(all.take(a.len() as int) =~= a);
    assert(all.skip((a.len() + s.len()) as int) =~= b);
    offset::lemma_concat_bytes(a, new, new.len() as int);
}

/// What is selected can be copied; typing, pasting and deleting put the new text, or
/// none, in its place, keep what stands on either side, and leave the caret behind the
/// new text with nothing selected.
pub proof fn an_edit_replaces_what_is_selected(
    m: ComposerModel,
    a: Seq<char>,
    s: Seq<char>,
    b: Seq<char>,
    new: Seq<char>,
    pieces: Seq<(usize, Seq<char>)>,
)
    requires
        selects(m, a, s, b),
    ensures
        m.editable(),
        m.selected_text() == s,
        m.collapsed() <==> s.len() == 0,
        m.replaced(m.target_of(None), new) == (ComposerModel {
            content: a + new + b,
            start: offset::byte_len(a + new) as int,
            end: offset::byte_len(a + new) as int,
            ..m
        }),
        m.pasted(new).content.len() == a.len() + new.len() + b.len(),
        m.pasted(new) == m.replaced(m.target_of(None), one_line(new)),
        s.len() > 0 ==> m.backspaced(pieces) == m.replaced(m.target_of(None), Seq::empty()),
        s.len() > 0 ==> m.deleted(pieces) == m.replaced(m.target_of(None), Seq::empty()),
        m.before_caret() == if m.reversed {
            a
        } else {
            a + s
        },
        m.behind_caret() == if m.reversed {
            s + b
        } else {
            b
        },
{
    lemma_three_parts(a, s, b);
    lemma_splices(a, s, b, new);
    lemma_splices(a, s, b, one_line(new));
    assert(m.content.subrange(a.len() as int, (a.len() + s.len()) as int) =~= s);
    if s.len() == 0 {
        assert(a + s =~= a);
    }
}

/// What the input method is composing is replaced before anything that is selected.
pub proof fn an_edit_replaces_what_is_composed(
    m: ComposerModel,
    a: Seq<char>,
    s: Seq<char>,
    b: Seq<char>,
    new: Seq<char>,
)
    requires
        m.content == a + s + b,
        m.marked == Some((offset::byte_len(a) as int, offset::byte_len(a + s) as int)),
    ensures
        m.editable(),
        m.replaced(m.target_of(None), new) == (ComposerModel {
            content: a + new + b,
            start: offset::byte_len(a + new) as int,
            end: offset::byte_len(a + new) as int,
            marked: None,
            ..m
        }),
        m.pasted(new) == m.replaced(m.target_of(None), one_line(new)),
{
    lemma_three_parts(a, s, b);
    lemma_splices(a, s, b, new);
}

/// Where the platform names what to replace, in its own units, that is replaced,
/// whatever is selected or being composed.
pub proof fn an_edit_replaces_what_the_platform_names(
    m: ComposerModel,
    a: Seq<char>,
    s: Seq<char>,
    b: Seq<char>,
    new: Seq<char>,
)
    requires
        m.content == a + s + b,
    ensures
        ({
            let named = Some((offset::units_of(a) as int, offset::units_of(a + s) as int));
            m.replaced(m.target_of(named), new) == (ComposerModel {
                content: a + new + b,
                start: offset::byte_len(a + new) as int,
                end: offset::byte_len(a + new) as int,
                marked: None,
                ..m
            })
        }),
{
    lemma_three_parts(a, s, b);
    lemma_splices(a, s, b, new);
}

/// Composing puts the text in place as an edit does and marks it, and selects within it
/// what the input method asks for, counted in the platform's units from its start.
pub proof fn composing_marks_the_new_text(
    m: ComposerModel,
    a: Seq<char>,
    s: Seq<char>,
    b: Seq<char>,
    x: Seq<char>,
    y: Seq<char>,
    z: Seq<char>,
)
    requires
        m.content == a + s + b,
    ensures
        ({
            let target = (offset::byte_len(a) as int, offset::byte_len(a + s) as int);
            let new = x + y + z;
            let asked = Some((offset::units_of(x) as int, offset::units_of(x + y) as int));
            let marked = if new.len() == 0 {
                None
            } else {
                Some((offset::byte_len(a) as int, offset::byte_len(a + new) as int))
            };
            &&& m.composed(target, new, None) == ComposerModel {
                content: a + new + b,
                start: offset::byte_len(a + new) as int,
                end: offset::byte_len(a + new) as int,
                marked,
                ..m
            }
            &&& m.composed(target, new, asked) == ComposerModel {
                content: a + new + b,
                start: offset::byte_len(a + x) as int,
                end: offset::byte_len(a + (x + y)) as int,
                marked,
                ..m
            }
        }),
{
    let new = x + y + z;
    lemma_three_parts(a, s, b);
    lemma_splices(a, s, b, new);
    lemma_three_parts(x, y, z);
    offset::lemma_concat_bytes(a, x, x.len() as int);
    offset::lemma_concat_bytes(a, x + y, (x + y).len() as int);
}

/// Pasting keeps every character but the new lines, which become spaces.
pub proof fn a_pasted_text_is_on_one_line(text: Seq<char>, i: int)
    requires
        0 <= i < text.len(),
    ensures
        one_line(text).len() == text.len(),
        text[i] == '\n' ==> one_line(text)[i] == ' ',
        text[i] != '\n' ==> one_line(text)[i] == text[i],
{
}

proof fn lemma_nothing_before(pieces: Seq<(usize, Seq<char>)>, k: int)
    requires
        0 <= k <= pieces.len(),
    ensures
        last_start_before(pieces, 0, k) == 0,
    decreases k,
{
    if k > 0 {
        lemma_nothing_before(pieces, k - 1);
    }
}

proof fn lemma_nothing_behind(pieces: Seq<(usize, Seq<char>)>, text: Seq<char>, k: int)
    requires
        tiles(pieces, text),
        0 <= k <= pieces.len(),
    ensures
        first_end_after(pieces, text, offset::byte_len(text) as int, k) == offset::byte_len(text),
    decreases pieces.len() - k,
{
    if k < pieces.len() {
        lemma_piece_offsets(pieces, text, k);
        lemma_piece_offsets(pieces, text, k + 1);
        lemma_nothing_behind(pieces, text, k + 1);
    }
}

/// Between two clusters, a step left goes to where the one before starts, and a step
/// right to where the one behind ends; at either end of the text it goes nowhere.
pub proof fn a_step_passes_one_cluster(pieces: Seq<(usize, Seq<char>)>, text: Seq<char>, j: int)
    requires
        tiles(pieces, text),
        0 <= j <= pieces.len(),
    ensures
        ({
            let here = offset::byte_len(pieced(pieces, j)) as int;
            &&& j > 0 ==> step_left(pieces, here) == offset::byte_len(pieced(pieces, j - 1))
            &&& j == 0 ==> here == 0 && step_left(pieces, here) == 0
            &&& j < pieces.len() ==> step_right(pieces, text, here) == offset::byte_len(
                pieced(pieces, j + 1),
            )
            &&& j == pieces.len() ==> step_right(pieces, text, here) == here
        }),
{
    lemma_piece_offsets(pieces, text, j);
    if j > 0 {
        lemma_piece_offsets(pieces, text, j - 1);
        a_step_right_and_a_step_left_cancel(pieces, text, j - 1);
    } else {
        lemma_nothing_before(pieces, pieces.len() as int);
    }
    if j < pieces.len() {
        a_step_right_and_a_step_left_cancel(pieces, text, j);
    } else {
        lemma_nothing_behind(pieces, text, 0);
    }
}

/// Whether the caret is behind the first `j` clusters, with nothing selected or composed.
pub open spec fn stands_behind(
    m: ComposerModel,
    pieces: Seq<(usize, Seq<char>)>,
    j: int,
) -> bool {
    &&& tiles(pieces, m.content)
    &&& 0 <= j <= pieces.len()
    &&& m.start == offset::byte_len(pieced(pieces, j))
    &&& m.end == m.start
    &&& m.marked is None
}

/// With nothing selected or composed, backspace takes what stands between one step to the
/// left of the caret and the caret, and leaves the rest.
pub proof fn backspace_takes_one_step(
    m: ComposerModel,
    pieces: Seq<(usize, Seq<char>)>,
    left: Seq<char>,
    piece: Seq<char>,
    behind: Seq<char>,
)
    requires
        m.content == left + piece + behind,
        m.start == offset::byte_len(left + piece),
        m.end == m.start,
        m.marked is None,
        step_left(pieces, m.start) == offset::byte_len(left),
    ensures
        m.backspaced(pieces).content == left + behind,
        m.backspaced(pieces).start == offset::byte_len(left),
        m.backspaced(pieces).end == offset::byte_len(left),
        m.backspaced(pieces).marked is None,
{
    let none = Seq::<char>::empty();
    assert(offset::byte_len(none) == 0);
    lemma_three_parts(left, piece, behind);
    lemma_splices(left, piece, behind, none);
    assert(left + none + behind =~= left + behind);
}

/// With nothing selected or composed, delete takes what stands between the caret and one
/// step to the right of it, and leaves the rest.
pub proof fn delete_takes_one_step(
    m: ComposerModel,
    pieces: Seq<(usize, Seq<char>)>,
    before: Seq<char>,
    piece: Seq<char>,
    rest: Seq<char>,
)
    requires
        m.content == before + piece + rest,
        m.start == offset::byte_len(before),
        m.end == m.start,
        m.marked is None,
        step_right(pieces, m.content, m.start) == offset::byte_len(before + piece),
    ensures
        m.deleted(pieces).content == before + rest,
        m.deleted(pieces).start == offset::byte_len(before),
        m.deleted(pieces).end == offset::byte_len(before),
        m.deleted(pieces).marked is None,
{
    let none = Seq::<char>::empty();
    assert(offset::byte_len(none) == 0);
    lemma_three_parts(before, piece, rest);
    lemma_splices(before, piece, rest, none);
    assert(before + none + rest =~= before + rest);
}

/// With the caret between two clusters and nothing selected or composed, backspace takes
/// the cluster before the caret, whole, and leaves the rest. At the start of the text
/// there is nothing to take.
pub proof fn backspace_takes_the_cluster_before(
    m: ComposerModel,
    pieces: Seq<(usize, Seq<char>)>,
    j: int,
)
    requires
        stands_behind(m, pieces, j),
    ensures
        ({
            let before = pieced(pieces, j);
            let behind = m.content.skip(before.len() as int);
            let left = if j > 0 {
                pieced(pieces, j - 1)
            } else {
                before
            };
            let after = m.backspaced(pieces);
            &&& m.content == before + behind
            &&& after.content == left + behind
            &&& after.start == offset::byte_len(left)
            &&& after.end == offset::byte_len(left)
            &&& after.marked is None
        }),
{
    let before = pieced(pieces, j);
    let behind = m.content.skip(before.len() as int);
    a_step_passes_one_cluster(pieces, m.content, j);
    lemma_pieced_grows(pieces, j, pieces.len() as int);
    assert(m.content =~= before + behind);
    if j > 0 {
        let left = pieced(pieces, j - 1);
        let piece = pieces[j - 1].1;
        assert(before == left + piece);
        backspace_takes_one_step(m, pieces, left, piece, behind);
    } else {
        let none = Seq::<char>::empty();
        assert(before + none =~= before);
        backspace_takes_one_step(m, pieces, before, none, behind);
    }
}

/// With the caret between two clusters and nothing selected or composed, delete takes the
/// cluster behind the caret, whole, and leaves the rest. At the end of the text there is
/// nothing to take.
pub proof fn delete_takes_the_cluster_behind(
    m: ComposerModel,
    pieces: Seq<(usize, Seq<char>)>,
    j: int,
)
    requires
        stands_behind(m, pieces, j),
    ensures
        ({
            let before = pieced(pieces, j);
            let through = if j < pieces.len() {
                pieced(pieces, j + 1)
            } else {
                before
            };
            let after = m.deleted(pieces);
            &&& after.content == before + m.content.skip(through.len() as int)
            &&& after.start == offset::byte_len(before)
            &&& after.end == offset::byte_len(before)
            &&& after.marked is None
        }),
{
    let before = pieced(pieces, j);
    a_step_passes_one_cluster(pieces, m.content, j);
    if j < pieces.len() {
        let through = pieced(pieces, j + 1);
        let rest = m.content.skip(through.len() as int);
        lemma_pieced_grows(pieces, j + 1, pieces.len() as int);
        assert(m.content =~= through + rest);
        assert(through == before + pieces[j].1);
        delete_takes_one_step(m, pieces, before, pieces[j].1, rest);
    } else {
        let none = Seq::<char>::empty();
        let behind = m.content.skip(before.len() as int);
        lemma_pieced_grows(pieces, j, pieces.len() as int);
        assert(m.content =~= before + behind);
        assert(before + none =~= before);
        delete_takes_one_step(m, pieces, before, none, behind);
    }
}

/// With the caret between two clusters and nothing selected, the arrows pass one cluster
/// and change no text. At an end there is none to pass.
pub proof fn arrows_pass_one_cluster(m: ComposerModel, pieces: Seq<(usize, Seq<char>)>, j: int)
    requires
        stands_behind(m, pieces, j),
    ensures
        j > 0 ==> m.left(pieces) == m.moved_to(offset::byte_len(pieced(pieces, j - 1)) as int),
        j == 0 ==> m.left(pieces) == m,
        j < pieces.len() ==> m.right(pieces) == m.moved_to(
            offset::byte_len(pieced(pieces, j + 1)) as int,
        ),
        j == pieces.len() ==> m.right(pieces) == m,
{
    a_step_passes_one_cluster(pieces, m.content, j);
}

/// With something selected, an arrow goes to that end of it. Moving and selecting change
/// no text; and selecting leaves the end where it began, in order.
pub proof fn moving_changes_no_text(
    m: ComposerModel,
    pieces: Seq<(usize, Seq<char>)>,
    n: int,
)
    requires
        m.start <= m.end,
    ensures
        m.start < m.end ==> m.left(pieces) == m.moved_to(m.start),
        m.start < m.end ==> m.right(pieces) == m.moved_to(m.end),
        m.moved_to(n) == (ComposerModel { start: n, end: n, ..m }),
        ({
            let t = m.selected_to(n);
            &&& t == ComposerModel { start: t.start, end: t.end, reversed: t.reversed, ..m }
            &&& t.start <= t.end
            &&& t.caret() == n
            &&& m.caret() == m.start ==> t.start == m.end || t.end == m.end || m.start == m.end
            &&& !m.reversed ==> t.start == m.start || t.end == m.start
            &&& m.reversed ==> t.start == m.end || t.end == m.end
            &&& n < m.start && !m.reversed ==> t.reversed
            &&& n >= m.start && !m.reversed ==> !t.reversed
            &&& n > m.end && m.reversed ==> !t.reversed
            &&& n <= m.end && m.reversed ==> t.reversed
        }),
{
}

/// Setting the text leaves nothing of the old one: no selection, nothing composed, the
/// caret at the end.
pub proof fn a_new_text_has_the_caret_at_its_end(m: ComposerModel, text: Seq<char>)
    ensures
        m.with_text(text).content == text,
        m.with_text(text).before_caret() == text,
        m.with_text(text).behind_caret() == Seq::<char>::empty(),
        m.with_text(text).collapsed(),
        !m.with_text(text).reversed,
        m.with_text(text).marked is None,
        m.with_text(text).placeholder == m.placeholder,
        m.with_text(text).selecting == m.selecting,
{
    offset::offsets_count_what_stands_before(text, ' ', Seq::empty(), 1);
    assert(text + Seq::<char>::empty() =~= text);
}

/// An empty field shows its placeholder, any other its text; a click in an empty one, or
/// where there is no text, is at the start.
pub proof fn an_empty_field_shows_its_placeholder(m: ComposerModel, at: usize)
    ensures
        m.content.len() == 0 ==> m.shown() == m.placeholder && m.index_for(Some(at)) == 0,
        m.content.len() > 0 ==> m.shown() == m.content && m.index_for(Some(at)) == at,
        m.index_for(None) == 0,
{
}

/// A run of `len` bytes, if there are any.
pub open spec fn run(len: int, underline: bool) -> Seq<TextRun> {
    if len > 0 {
        seq![TextRun { len: len as usize, underline }]
    } else {
        Seq::empty()
    }
}

/// What is being composed is underlined, and what stands before and behind it is not;
/// nothing that has no length is painted, unless it is all there is.
pub proof fn what_is_composed_is_underlined(shown: usize, a: int, b: int)
    requires
        0 <= a <= b <= shown,
    ensures
        runs_of(shown, None) == seq![TextRun { len: shown, underline: false }],
        runs_of(shown, Some((a, b))) == run(a, false) + run(b - a, true) + run(shown - b, false),
{
    reveal_with_fuel(Seq::filter, 4);
    let p = |r: TextRun| r.len > 0;
    let x = TextRun { len: a as usize, underline: false };
    let y = TextRun { len: (b - a) as usize, underline: true };
    let z = TextRun { len: (shown - b) as usize, underline: false };
    let all = seq![x, y, z];
    assert(all.drop_last() =~= seq![x, y]);
    assert(seq![x, y].drop_last() =~= seq![x]);
    assert(seq![x].drop_last() =~= Seq::<TextRun>::empty());
    assert(all.filter(p) =~= run(a, false) + run(b - a, true) + run(shown - b, false));
}

#[verifier::spinoff_prover]
proof fn lemma_step_left_inside(pieces: Seq<(usize, Seq<char>)>, k: int, n: int, upto: int)
    requires
        in_a_row(pieces),
        0 <= k < upto <= pieces.len(),
        pieces[k].0 < n <= pieces[k].0 + offset::byte_len(pieces[k].1),
    ensures
        last_start_before(pieces, n, upto) == pieces[k].0,
    decreases upto - k,
{
    if k + 1 < upto {
        assert(pieces[k + 1].0 == pieces[k].0 + offset::byte_len(pieces[k].1));
        if k + 1 < upto - 1 {
            lemma_starts_ascend(pieces, k + 1, upto - 1);
        }
        lemma_step_left_inside(pieces, k, n, upto - 1);
    }
}

#[verifier::spinoff_prover]
proof fn lemma_step_right_inside(
    pieces: Seq<(usize, Seq<char>)>,
    text: Seq<char>,
    k: int,
    n: int,
    from: int,
)
    requires
        in_a_row(pieces),
        0 <= from <= k < pieces.len(),
        pieces[k].0 < n < pieces[k].0 + offset::byte_len(pieces[k].1),
        k == pieces.len() - 1 ==> offset::byte_len(text) == pieces[k].0 + offset::byte_len(
            pieces[k].1,
        ),
    ensures
        first_end_after(pieces, text, n, from) == pieces[k].0 + offset::byte_len(pieces[k].1),
    decreases k - from,
{
    if from < k {
        lemma_starts_ascend(pieces, from, k);
        lemma_step_right_inside(pieces, text, k, n, from + 1);
    } else if k + 1 < pieces.len() {
        assert(pieces[k + 1].0 == pieces[k].0 + offset::byte_len(pieces[k].1));
        assert(first_end_after(pieces, text, n, k + 1) == pieces[k + 1].0);
    } else {
        assert(first_end_after(pieces, text, n, k + 1) == offset::byte_len(text));
    }
}

/// From inside a cluster, a step left goes to where it starts and a step right to where
/// it ends.
pub proof fn a_step_from_inside_leaves_the_cluster(
    pieces: Seq<(usize, Seq<char>)>,
    text: Seq<char>,
    k: int,
    n: int,
)
    requires
        tiles(pieces, text),
        0 <= k < pieces.len(),
        pieces[k].0 < n < pieces[k].0 + offset::byte_len(pieces[k].1),
    ensures
        step_left(pieces, n) == pieces[k].0,
        step_right(pieces, text, n) == pieces[k].0 + offset::byte_len(pieces[k].1),
{
    lemma_in_a_row(pieces, text);
    lemma_piece_offsets(pieces, text, k);
    lemma_piece_offsets(pieces, text, k + 1);
    lemma_step_left_inside(pieces, k, n, pieces.len() as int);
    lemma_step_right_inside(pieces, text, k, n, 0);
}

} // verus!
