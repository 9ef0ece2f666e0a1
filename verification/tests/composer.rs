use delta_mock::composer::{boundary_after, boundary_before, Composer, ComposerEvent, TextRun};

fn typed(text: &str) -> Composer {
    let mut c = Composer::new("say something");
    c.replace_text_in_range(None, text);
    c
}

fn selection(c: &Composer) -> (usize, usize, bool) {
    let s = c.selected_text_range();
    (s.range.start, s.range.end, s.reversed)
}

#[test]
fn a_new_composer_is_empty_and_shows_its_placeholder() {
    let c = Composer::new("say something");
    assert!(c.is_empty());
    assert_eq!(c.text(), "");
    assert_eq!(c.display_text(), "say something");
    assert_eq!(c.placeholder, "say something");
    assert_eq!(selection(&c), (0, 0, false));
    assert_eq!(c.text_runs(), vec![TextRun { len: 13, underline: false }]);
}

#[test]
fn typing_goes_in_at_the_caret() {
    let mut c = typed("helo");
    assert_eq!(c.cursor_offset(), 4);
    c.left();
    assert_eq!(c.replace_text_in_range(None, "l"), ComposerEvent::Changed);
    assert_eq!(c.text(), "hello");
    assert_eq!(c.cursor_offset(), 4);
    assert_eq!(c.display_text(), "hello");
}

#[test]
fn the_caret_steps_over_whole_clusters() {
    // e + combining acute, a flag made of two characters, a family of seven.
    let text = "e\u{301}x\u{1F1EB}\u{1F1F7}\u{1F468}\u{200D}\u{1F469}\u{200D}\u{1F467}!";
    let mut c = typed(text);
    let mut stops = vec![c.cursor_offset()];
    while c.cursor_offset() > 0 {
        c.left();
        stops.push(c.cursor_offset());
    }
    stops.reverse();
    assert_eq!(stops, vec![0, 3, 4, 12, 30, 31]);
    for stop in &stops[1..] {
        c.right();
        assert_eq!(c.cursor_offset(), *stop);
    }
    c.right();
    assert_eq!(c.cursor_offset(), 31);
    assert_eq!(c.previous_boundary(13), 12);
    assert_eq!(c.next_boundary(13), 30);
    assert_eq!(c.next_boundary(0), 3);
    assert_eq!(c.previous_boundary(0), 0);
}

#[test]
fn steps_follow_the_pieces_they_are_given() {
    let pieces = vec![(0, "ab".to_string()), (2, "c".to_string()), (3, "de".to_string())];
    assert_eq!(boundary_before(&pieces, 5), 3);
    assert_eq!(boundary_before(&pieces, 3), 2);
    assert_eq!(boundary_before(&pieces, 1), 0);
    assert_eq!(boundary_before(&pieces, 0), 0);
    assert_eq!(boundary_before(&Vec::new(), 4), 0);
    assert_eq!(boundary_after(&pieces, "abcde", 0), 2);
    assert_eq!(boundary_after(&pieces, "abcde", 1), 2);
    assert_eq!(boundary_after(&pieces, "abcde", 2), 3);
    assert_eq!(boundary_after(&pieces, "abcde", 3), 5);
    assert_eq!(boundary_after(&pieces, "abcde", 4), 5);
    assert_eq!(boundary_after(&pieces, "abcde", 9), 5);
}

#[test]
fn backspace_and_delete_take_whole_clusters() {
    let mut c = typed("ae\u{301}b");
    c.left();
    assert_eq!(c.backspace(), ComposerEvent::Changed);
    assert_eq!(c.text(), "ab");
    assert_eq!(c.cursor_offset(), 1);
    c.home();
    assert_eq!(c.delete(), ComposerEvent::Changed);
    assert_eq!(c.text(), "b");
    c.backspace();
    assert_eq!(c.text(), "b");
    c.end();
    c.delete();
    assert_eq!(c.text(), "b");
}

#[test]
fn selecting_stretches_from_the_end_that_stays() {
    let mut c = typed("hello");
    c.select_left();
    c.select_left();
    assert_eq!(selection(&c), (3, 5, true));
    assert_eq!(c.cursor_offset(), 3);
    c.select_right();
    assert_eq!(selection(&c), (4, 5, true));
    c.select_right();
    assert_eq!(selection(&c), (5, 5, true));
    c.home();
    c.select_right();
    assert_eq!(selection(&c).1, 1);
    c.left();
    assert_eq!(selection(&c), (0, 0, false));
    c.select_right();
    c.right();
    assert_eq!((selection(&c).0, selection(&c).1), (1, 1));
}

#[test]
fn select_all_takes_everything() {
    let mut c = typed("hello");
    c.select_left();
    c.select_all();
    assert_eq!((selection(&c).0, selection(&c).1), (0, 5));
    assert_eq!(c.copy(), Some("hello".to_string()));
    c.replace_text_in_range(None, "bye");
    assert_eq!(c.text(), "bye");
    let mut nothing = Composer::new("");
    nothing.select_all();
    assert_eq!(nothing.copy(), None);
}

#[test]
fn what_is_cut_can_be_pasted_back() {
    let mut c = typed("hello world");
    c.home();
    for _ in 0..6 {
        c.select_right();
    }
    let (taken, event) = c.cut().expect("something is selected");
    assert_eq!(taken, "hello ");
    assert_eq!(event, ComposerEvent::Changed);
    assert_eq!(c.text(), "world");
    assert!(c.cut().is_none());
    assert_eq!(c.paste(&taken), ComposerEvent::Changed);
    assert_eq!(c.text(), "hello world");
    assert_eq!(c.cursor_offset(), 6);
}

#[test]
fn a_pasted_newline_becomes_a_space() {
    let mut c = Composer::new("");
    c.paste("two\nlines\n");
    assert_eq!(c.text(), "two lines ");
}

#[test]
fn setting_the_text_puts_the_caret_behind_it() {
    let mut c = typed("hello");
    c.select_left();
    assert_eq!(c.set_text("h\u{e9}"), ComposerEvent::Changed);
    assert_eq!(c.cursor_offset(), 3);
    assert_eq!(selection(&c), (2, 2, false));
    assert_eq!(c.clear(), ComposerEvent::Changed);
    assert!(c.is_empty());
}

#[test]
fn the_platform_counts_in_utf16() {
    let mut c = typed("a\u{1F600}b");
    let mut actual = None;
    assert_eq!(c.text_for_range(1..3, &mut actual), Some("\u{1F600}".to_string()));
    assert_eq!(actual, Some(1..3));
    // Half a character is rounded up to all of it.
    assert_eq!(c.text_for_range(0..2, &mut actual), Some("a\u{1F600}".to_string()));
    assert_eq!(actual, Some(0..3));
    assert_eq!(c.text_for_range(3..1, &mut actual), None);
    assert_eq!(actual, Some(3..1));
    c.replace_text_in_range(Some(1..3), "-");
    assert_eq!(c.text(), "a-b");
    assert_eq!(c.cursor_offset(), 2);
    assert_eq!(c.range_to_utf16(&(0..3)), 0..3);
    assert_eq!(c.range_from_utf16(&(1..9)), 1..3);
}

#[test]
fn composed_text_is_marked_until_it_is_committed() {
    let mut c = typed("ab");
    c.left();
    assert_eq!(c.replace_and_mark_text_in_range(None, "ni", None), ComposerEvent::Changed);
    assert_eq!(c.text(), "anib");
    assert_eq!(c.marked_text_range(), Some(1..3));
    assert_eq!(
        c.text_runs(),
        vec![
            TextRun { len: 1, underline: false },
            TextRun { len: 2, underline: true },
            TextRun { len: 1, underline: false },
        ],
    );
    // What is composed is replaced as a whole, wherever the selection is.
    c.replace_and_mark_text_in_range(None, "\u{4F60}", None);
    assert_eq!(c.text(), "a\u{4F60}b");
    assert_eq!(c.marked_text_range(), Some(1..2));
    c.replace_text_in_range(None, "\u{4F60}");
    assert_eq!(c.text(), "a\u{4F60}b");
    assert_eq!(c.marked_text_range(), None);
    assert_eq!(c.cursor_offset(), 4);
}

#[test]
fn composing_nothing_leaves_no_mark() {
    let mut c = typed("ab");
    c.replace_and_mark_text_in_range(Some(0..1), "", None);
    assert_eq!(c.text(), "b");
    assert_eq!(c.marked_text_range(), None);
    c.replace_and_mark_text_in_range(Some(0..1), "xy", None);
    assert_eq!(c.text_runs(), vec![TextRun { len: 2, underline: true }]);
    c.unmark_text();
    assert_eq!(c.marked_text_range(), None);
    assert_eq!(c.text(), "xy");
}

/// A selection the input method asks for lies within what it composed.
#[test]
fn an_asked_for_selection_lies_within_the_new_text() {
    let mut c = typed("abcd");
    c.replace_and_mark_text_in_range(Some(1..2), "xyz", Some(1..2));
    assert_eq!(c.text(), "axyzcd");
    assert_eq!(selection(&c), (2, 3, false));
    assert!(c.accepts_edits() && c.accepts_copy());
    c.replace_and_mark_text_in_range(Some(4..6), "", Some(9..9));
    assert_eq!(c.text(), "axyz");
    assert_eq!(c.selection(), 4..4);
    let mut all = typed("abc");
    all.select_all();
    all.replace_and_mark_text_in_range(None, "x", Some(1..1));
    assert_eq!(all.text(), "x");
    assert_eq!(all.selection(), 1..1);
    // The units are the new text's, not those of what stands before it.
    let mut wide = typed("\u{1F600}");
    wide.replace_and_mark_text_in_range(None, "\u{e9}\u{1F600}z", Some(1..3));
    assert_eq!(wide.selection(), 6..10);
}

/// What is composed can be composed further.
#[test]
fn composing_goes_on_over_the_mark() {
    let mut c = typed("abc");
    c.replace_and_mark_text_in_range(None, "n", Some(1..1));
    assert_eq!(selection(&c), (4, 4, false));
    c.replace_and_mark_text_in_range(None, "ni", Some(2..2));
    assert_eq!(c.text(), "abcni");
    assert_eq!(c.selection(), 5..5);
    assert!(c.accepts_edits() && c.accepts_paint() && c.accepts_copy());
    c.replace_text_in_range(None, "\u{4f60}");
    assert_eq!(c.text(), "abc\u{4f60}");
}

/// Only an offset from outside can fall inside a character.
#[test]
fn an_offset_inside_a_character_is_noticed() {
    let mut c = typed("\u{e9}x");
    c.on_mouse_down(false, Some(1));
    assert!(!c.accepts_edits());
    assert!(c.accepts_copy());
    c.on_mouse_down(true, Some(3));
    assert!(!c.accepts_copy());
    c.end();
    assert!(c.accepts_edits() && c.accepts_copy());
}

#[test]
fn the_mouse_moves_and_drags() {
    let mut c = typed("hello");
    c.on_mouse_down(false, Some(1));
    assert_eq!(c.cursor_offset(), 1);
    c.on_mouse_move(Some(4));
    assert_eq!(selection(&c), (1, 4, false));
    c.on_mouse_up();
    c.on_mouse_move(Some(2));
    assert_eq!(selection(&c), (1, 4, false));
    c.on_mouse_down(true, Some(0));
    assert_eq!(selection(&c), (0, 1, true));
    c.on_mouse_down(false, None);
    assert_eq!(c.cursor_offset(), 0);
    let empty = Composer::new("");
    assert_eq!(empty.index_for_mouse_position(Some(7)), 0);
}

#[test]
fn the_other_keys_only_report() {
    let c = typed("hello");
    assert_eq!(c.submit(), ComposerEvent::Submit);
    assert_eq!(c.cancel(), ComposerEvent::Cancel);
    assert_eq!(c.complete(), ComposerEvent::Complete);
    assert_eq!(c.move_up(), ComposerEvent::MoveUp);
    assert_eq!(c.move_down(), ComposerEvent::MoveDown);
    assert_eq!(c.text(), "hello");
}
