use cosmic_edit::buffer::{CosmicEditBuffer, Metrics, Span, TextAttrs};
use cosmic_edit::color::Rgba;
use cosmic_edit::editor::{
    blink_cursor, chars_of, Motion, fits_limits, handle_text_input, line_position, CosmicEditor, EditLimits,
};

fn editor_with(text: &str) -> CosmicEditor {
    let b = CosmicEditBuffer::new(Metrics { font_size: 16, line_height: 16 }).with_text(text, TextAttrs::new());
    CosmicEditor::new(b.0, 500)
}

#[test]
fn edit_limits_reject_second_line_and_long_text() {
    let limits = EditLimits { max_chars: 15, max_lines: 1 };
    let mut e = editor_with("");
    assert!(e.insert_string("1 line 15 chars", &limits));
    assert_eq!(e.buffer.get_text(), "1 line 15 chars");
    assert_eq!(e.cursor, 15);
    assert!(!e.insert_string("!", &limits));
    assert_eq!(e.buffer.get_text(), "1 line 15 chars");
    let mut e = editor_with("short");
    e.click(5);
    assert!(!e.insert_string("\n", &limits));
    assert_eq!(e.buffer.get_text(), "short");
    assert!(e.insert_string(" ok", &limits));
    assert_eq!(e.buffer.get_text(), "short ok");
}

#[test]
fn zero_limits_mean_unlimited() {
    let limits = EditLimits { max_chars: 0, max_lines: 0 };
    assert!(fits_limits("a\nb\nc\nd", &limits));
    assert!(!fits_limits("a\nb", &EditLimits { max_chars: 0, max_lines: 1 }));
    assert!(fits_limits("a\nb", &EditLimits { max_chars: 3, max_lines: 2 }));
    assert!(!fits_limits("abcd", &EditLimits { max_chars: 3, max_lines: 0 }));
}

#[test]
fn insert_in_middle_moves_cursor() {
    let limits = EditLimits { max_chars: 0, max_lines: 0 };
    let mut e = editor_with("ad");
    e.click(1);
    assert!(e.insert_string("b\nc", &limits));
    assert_eq!(e.buffer.get_text(), "ab\ncd");
    assert_eq!(e.buffer.lines.len(), 2);
    assert_eq!(e.cursor, 4);
}

#[test]
fn read_only_ignores_text_input() {
    let limits = EditLimits { max_chars: 0, max_lines: 0 };
    let mut e = editor_with("keep");
    assert!(!handle_text_input(&mut e, "x", true, &limits));
    assert_eq!(e.buffer.get_text(), "keep");
    assert!(handle_text_input(&mut e, "x", false, &limits));
    assert_eq!(e.buffer.get_text(), "xkeep");
}

#[test]
fn click_clamps_and_selection_copies() {
    let mut e = editor_with("hello\nworld");
    assert_eq!(e.click(99), 11);
    assert_eq!(e.cursor, 11);
    e.select_to(3, 8);
    assert_eq!(e.select_opt, Some(3));
    assert_eq!(e.copy_selection(), Some("lo\nwo".to_string()));
    e.select_to(8, 3);
    assert_eq!(e.copy_selection(), Some("lo\nwo".to_string()));
    e.click(0);
    assert_eq!(e.copy_selection(), None);
}

#[test]
fn blink_toggles_each_period() {
    let mut e = editor_with("");
    assert!(e.cursor_visible);
    e.redraw = false;
    blink_cursor(&mut e, 300, false);
    assert!(e.cursor_visible);
    assert!(!e.redraw);
    blink_cursor(&mut e, 300, false);
    assert!(!e.cursor_visible);
    assert!(e.redraw);
    assert_eq!(e.cursor_timer.elapsed_ms, 100);
    blink_cursor(&mut e, 5000, true);
    assert!(!e.cursor_visible);
    assert_eq!(e.cursor_timer.elapsed_ms, 100);
}

#[test]
fn downgrading_copies_lines() {
    let red = TextAttrs { color: Some(Rgba::rgb(255, 0, 0)), weight: 700, italic: true };
    let d = TextAttrs::new();
    let b = CosmicEditBuffer::new(Metrics { font_size: 16, line_height: 16 })
        .with_rich_text(&vec![("ab".to_string(), d), ("cd".to_string(), red)], d);
    let mut e = CosmicEditor::new(b.0, 500);
    e.select_to(0, 2);
    e.redraw = false;
    e.buffer.redraw = false;
    let plain = CosmicEditBuffer::from_downgrading_editor(&e);
    drop(e);
    assert_eq!(plain.0.get_text(), "abcd");
    assert_eq!(plain.0.lines[0].spans, vec![Span { start: 2, end: 4, attrs: red }]);
    assert!(plain.0.redraw);
}

#[test]
fn insertion_keeps_spans_in_place() {
    let red = TextAttrs { color: Some(Rgba::rgb(255, 0, 0)), weight: 400, italic: false };
    let d = TextAttrs::new();
    let limits = EditLimits { max_chars: 0, max_lines: 0 };
    let b = CosmicEditBuffer::new(Metrics { font_size: 16, line_height: 16 })
        .with_rich_text(&vec![("ab".to_string(), d), ("cd".to_string(), red), ("e".to_string(), d)], d);
    let mut e = CosmicEditor::new(b.0, 500);
    e.click(1);
    assert!(e.insert_string("X", &limits));
    assert_eq!(e.buffer.get_text(), "aXbcde");
    assert_eq!(e.buffer.lines[0].spans, vec![Span { start: 3, end: 5, attrs: red }]);
    e.click(4);
    assert!(e.insert_string("\n", &limits));
    assert_eq!(e.buffer.get_text(), "aXbc\nde");
    assert_eq!(e.buffer.lines[0].spans, vec![Span { start: 3, end: 4, attrs: red }]);
    assert_eq!(e.buffer.lines[1].spans, vec![Span { start: 0, end: 1, attrs: red }]);
    assert_eq!(e.cursor, 5);
}

#[test]
fn double_click_selects_word() {
    let mut e = editor_with("hello big\nworld");
    e.click_count(7, 2);
    assert_eq!(e.copy_selection(), Some("big".to_string()));
    e.click_count(5, 2);
    assert_eq!(e.copy_selection(), Some("hello".to_string()));
    e.click_count(100, 2);
    assert_eq!(e.copy_selection(), Some("world".to_string()));
}

#[test]
fn triple_click_selects_line() {
    let mut e = editor_with("one\ntwo two\nthree");
    e.click_count(6, 3);
    assert_eq!(e.select_opt, Some(4));
    assert_eq!(e.cursor, 11);
    assert_eq!(e.copy_selection(), Some("two two".to_string()));
    e.click_count(6, 1);
    assert_eq!(e.select_opt, None);
    assert_eq!(e.cursor, 6);
}

#[test]
fn positions_map_to_lines() {
    let e = editor_with("ab\n\ncd");
    assert_eq!(line_position(&e.buffer, 0), (0, 0));
    assert_eq!(line_position(&e.buffer, 2), (0, 2));
    assert_eq!(line_position(&e.buffer, 3), (1, 0));
    assert_eq!(line_position(&e.buffer, 4), (2, 0));
    assert_eq!(line_position(&e.buffer, 6), (2, 2));
    assert_eq!(chars_of("aé\n"), vec!['a', 'é', '\n']);
}

#[test]
fn single_click_places_cursor() {
    let mut e = editor_with("abc");
    e.select_to(0, 2);
    e.click_count(2, 1);
    assert_eq!(e.cursor, 2);
    assert_eq!(e.select_opt, None);
}

#[test]
fn keyboard_motion_moves_and_extends() {
    let mut e = editor_with("ab\ncde");
    e.click(4);
    e.move_cursor(Motion::Left, false);
    assert_eq!(e.cursor, 3);
    e.move_cursor(Motion::End, true);
    assert_eq!(e.cursor, 6);
    assert_eq!(e.select_opt, Some(3));
    assert_eq!(e.copy_selection(), Some("cde".to_string()));
    e.move_cursor(Motion::Home, true);
    assert_eq!(e.cursor, 3);
    assert_eq!(e.select_opt, Some(3));
    e.move_cursor(Motion::BufferEnd, false);
    assert_eq!(e.cursor, 6);
    assert_eq!(e.select_opt, None);
    e.move_cursor(Motion::Right, false);
    assert_eq!(e.cursor, 6);
    e.move_cursor(Motion::BufferStart, false);
    assert_eq!(e.cursor, 0);
    e.move_cursor(Motion::Left, false);
    assert_eq!(e.cursor, 0);
    assert!(e.is_wf());
    e.cursor = 99;
    assert!(!e.is_wf());
}
