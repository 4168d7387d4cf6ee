use trevia_editor_engine::editor::TreviaEditor;
use trevia_editor_engine::editor_v2::TreviaEditorV2;
use trevia_editor_engine::types::CursorPosition;

#[test]
fn editor_starts_dirty_and_empty() {
    let e = TreviaEditor::new();
    assert!(e.is_dirty());
    assert_eq!(e.get_document_length(), 0);
    assert_eq!(e.get_cursor_position(), CursorPosition::new(0, 0));
    assert!(!e.has_selection());
}

#[test]
fn editor_typing_and_deleting() {
    let mut e = TreviaEditor::new();
    e.insert_text("Olá mundo!");
    assert_eq!(e.get_document_text(), "Olá mundo!");
    assert_eq!(e.get_cursor_position().offset, 11);
    e.delete_text(7);
    assert_eq!(e.get_document_text(), "Olá");
    assert_eq!(e.get_cursor_position().offset, 4);
    e.delete_text(10);
    assert_eq!(e.get_document_text(), "Olá");
}

#[test]
fn editor_cursor_placement() {
    let mut e = TreviaEditor::new();
    e.insert_text("abcdef");
    e.set_cursor_position(2);
    assert_eq!(e.get_cursor_position().offset, 2);
    e.set_cursor_position(99);
    assert_eq!(e.get_cursor_position().offset, 2);
    e.move_cursor_by(-5);
    assert_eq!(e.get_cursor_position().offset, 0);
    e.move_cursor_by(50);
    assert_eq!(e.get_cursor_position().offset, 6);
}

#[test]
fn editor_selection_round_trip() {
    let mut e = TreviaEditor::new();
    e.insert_text("hello world");
    e.set_selection(11, 6);
    assert!(e.has_selection());
    assert_eq!(e.get_selected_text(), "world");
    assert_eq!(e.get_cursor_position().offset, 6);
    assert!(e.delete_selection());
    assert_eq!(e.get_document_text(), "hello ");
    assert_eq!(e.get_cursor_position().offset, 6);
    assert!(!e.has_selection());
    assert!(!e.delete_selection());
}

#[test]
fn editor_selected_text_needs_boundaries() {
    let mut e = TreviaEditor::new();
    e.insert_text("aé");
    e.set_selection(0, 2);
    assert_eq!(e.get_selected_text(), "");
    e.set_selection(0, 3);
    assert_eq!(e.get_selected_text(), "aé");
    e.clear_selection();
    assert_eq!(e.get_selected_text(), "");
}

#[test]
fn editor_pages_after_layout() {
    let mut e = TreviaEditor::new();
    e.insert_text("0123456789");
    e.set_cursor_position(7);
    assert_eq!(e.get_cursor_position().page, 0);
    e.recompute_layout(vec![4, 4, 2]);
    assert!(!e.is_dirty());
    assert_eq!(e.get_cursor_position(), CursorPosition::new(7, 1));
    e.set_cursor_position(4);
    assert_eq!(e.get_cursor_position().page, 0);
    e.set_cursor_position(9);
    assert_eq!(e.get_cursor_position().page, 2);
    e.set_selection(1, 10);
    assert_eq!(e.get_cursor_position(), CursorPosition::new(10, 2));
    e.recompute_layout(vec![10]);
    assert_eq!(e.get_cursor_position().page, 2);
    e.mark_dirty();
    e.set_cursor_position(9);
    assert_eq!(e.get_cursor_position().page, 0);
}

#[test]
fn editor_offset_past_all_pages_is_on_last() {
    let mut e = TreviaEditor::new();
    e.insert_text("0123456789");
    e.recompute_layout(vec![3, 3]);
    e.set_cursor_position(10);
    assert_eq!(e.get_cursor_position().page, 1);
}

#[test]
fn editor_click() {
    let mut e = TreviaEditor::new();
    e.insert_text("abc");
    assert!(e.handle_click(Some(1)));
    assert_eq!(e.get_cursor_position().offset, 1);
    assert!(!e.handle_click(None));
    assert!(e.handle_click(Some(30)));
    assert_eq!(e.get_cursor_position().offset, 1);
}

#[test]
fn v2_editor_layout_flag() {
    let mut e = TreviaEditorV2::new();
    assert!(e.update_layout());
    assert!(!e.update_layout());
    e.insert_text("hi");
    assert!(e.update_layout());
    e.set_cursor_position(1);
    assert!(!e.update_layout());
    e.invalidate_layout();
    assert!(e.update_layout());
}

#[test]
fn v2_editor_keys() {
    let mut e = TreviaEditorV2::from_text("ab\ncd".to_string());
    e.update_layout();
    assert!(e.handle_key("ArrowRight", false, false, false));
    assert_eq!(e.get_cursor_position(), 1);
    assert!(e.handle_key("ArrowRight", true, false, false));
    assert_eq!(e.get_cursor_position(), 1);
    assert!(e.handle_key("End", false, false, false));
    assert_eq!(e.get_cursor_position(), 2);
    assert!(e.handle_key("Home", false, false, false));
    assert_eq!(e.get_cursor_position(), 0);
    assert!(e.handle_key("Delete", false, false, false));
    assert_eq!(e.get_text(), "b\ncd");
    assert!(e.update_layout());
    assert!(e.handle_key("ArrowRight", false, false, false));
    assert!(e.handle_key("Backspace", false, false, false));
    assert_eq!(e.get_text(), "\ncd");
    assert!(e.handle_key("ArrowLeft", false, false, false));
    assert_eq!(e.get_cursor_position(), 0);
    assert!(!e.handle_key("a", false, false, false));
    assert!(!e.has_selection());
    assert!(e.handle_key("a", true, false, false));
    assert_eq!(e.get_selection(), Some(vec![0, 3]));
    assert!(!e.handle_key("Enter", false, false, false));
    assert!(!e.handle_key("backspace", false, false, false));
}

#[test]
fn v2_editor_click_and_drag() {
    let mut e = TreviaEditorV2::from_text("hello world".to_string());
    assert!(e.handle_click(Some(3)));
    assert_eq!(e.get_cursor_position(), 3);
    assert!(!e.handle_click(None));
    e.handle_drag(Some(7));
    assert_eq!(e.get_selection(), Some(vec![3, 7]));
    assert_eq!(e.get_selected_text(), "lo w");
    e.handle_drag(Some(1));
    assert_eq!(e.get_selection(), Some(vec![1, 3]));
    e.handle_drag(None);
    assert_eq!(e.get_selection(), Some(vec![1, 3]));
}

#[test]
fn v2_editor_cursor_line_and_column() {
    let mut e = TreviaEditorV2::from_text("ab\ncde".to_string());
    e.set_cursor_position(5);
    assert_eq!(e.get_cursor_line(), 2);
    assert_eq!(e.get_cursor_column(), 2);
    assert_eq!(e.get_line_count(), 2);
    assert_eq!(e.get_line(1), Some("ab".to_string()));
    assert_eq!(e.length(), 6);
}

#[test]
fn v2_editor_edits() {
    let mut e = TreviaEditorV2::new();
    e.insert_text("abc");
    e.insert_text_at(0, "x");
    assert_eq!(e.get_text(), "xabc");
    e.delete_range(1, 3);
    assert_eq!(e.get_text(), "xc");
    e.delete_backward(1);
    assert_eq!(e.get_text(), "x");
    e.move_cursor(-1);
    e.delete_forward(1);
    assert_eq!(e.get_text(), "");
    e.insert_text("line one\nline two");
    e.move_cursor_to_line_start();
    assert_eq!(e.get_cursor_position(), 9);
    e.move_cursor_to_line_end();
    assert_eq!(e.get_cursor_position(), 17);
    e.select_all();
    assert!(e.has_selection());
    e.clear_selection();
    assert!(!e.has_selection());
    e.set_selection(0, 4);
    assert_eq!(e.get_selected_text(), "line");
}

#[test]
fn editor_delete_text_counts_characters() {
    let mut e = TreviaEditor::new();
    e.insert_text("éé");
    assert_eq!(e.get_cursor_position().offset, 4);
    e.delete_text(2);
    assert_eq!(e.get_document_text(), "");
    assert_eq!(e.get_cursor_position().offset, 0);
}

#[test]
fn editor_delete_text_stops_at_the_cursor() {
    let mut e = TreviaEditor::new();
    e.insert_text("aéb");
    e.set_cursor_position(3);
    e.delete_text(1);
    assert_eq!(e.get_document_text(), "ab");
    assert_eq!(e.get_cursor_position().offset, 1);
    e.delete_text(0);
    assert_eq!(e.get_document_text(), "ab");
    e.delete_text(2);
    assert_eq!(e.get_document_text(), "ab");
    assert_eq!(e.get_cursor_position().offset, 1);
}

#[test]
fn editor_delete_text_before_a_short_cursor_does_nothing() {
    let mut e = TreviaEditor::new();
    e.insert_text("é");
    e.set_cursor_position(1);
    e.delete_text(2);
    assert_eq!(e.get_document_text(), "é");
    assert_eq!(e.get_cursor_position().offset, 1);
}
