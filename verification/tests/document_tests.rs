use trevia_editor_engine::document::{DocumentModel, Paragraph, TextRun};
use trevia_editor_engine::document_v2::{DocumentV2, Selection};
use trevia_editor_engine::types::{CursorPosition, TextStyle};

#[test]
fn model_insert_and_delete() {
    let mut d = DocumentModel::new();
    assert_eq!(d.get_text_length(), 0);
    d.insert_text(0, "hello");
    d.insert_text(100, "!");
    d.insert_text(0, "> ");
    assert_eq!(d.get_text(), "> hello!");
    d.delete_text(2, 5);
    assert_eq!(d.get_text(), "> !");
    d.delete_text(1, 100);
    assert_eq!(d.get_text(), ">");
    d.delete_text(5, 1);
    d.delete_text(0, 0);
    assert_eq!(d.get_text(), ">");
    assert_eq!(d.get_text_length(), 1);
}

#[test]
fn model_insert_then_delete_restores_text() {
    let mut d = DocumentModel::new();
    d.insert_text(0, "abcdef");
    d.insert_text(3, "XYZ");
    d.delete_text(3, 3);
    assert_eq!(d.get_text(), "abcdef");
}

#[test]
fn model_paragraph_count() {
    let mut d = DocumentModel::new();
    assert_eq!(d.get_paragraph_count(), 1);
    d.insert_text(0, "a\nb\n");
    assert_eq!(d.get_paragraph_count(), 2);
    d.insert_text(4, "c");
    assert_eq!(d.get_paragraph_count(), 3);
}

#[test]
fn model_paragraphs_hold_lines() {
    let mut d = DocumentModel::new();
    d.insert_text(0, "ab\n\ncde");
    let ps = d.paragraphs();
    assert_eq!(ps.len(), 3);
    assert_eq!(ps[0].runs.len(), 1);
    assert_eq!(ps[0].runs[0].text, "ab");
    assert_eq!(ps[0].runs[0].start, 0);
    assert_eq!(ps[0].runs[0].end, 2);
    assert_eq!(ps[0].end_offset, 2);
    assert_eq!(ps[1].runs.len(), 0);
    assert_eq!(ps[1].end_offset, 0);
    assert_eq!(ps[2].get_text(), "cde");
    assert_eq!(ps[2].end_offset, 3);
}

#[test]
fn model_paragraphs_strip_carriage_return() {
    let mut d = DocumentModel::new();
    d.insert_text(0, "ab\r\ncd");
    let ps = d.paragraphs();
    assert_eq!(ps.len(), 2);
    assert_eq!(ps[0].get_text(), "ab");
    assert_eq!(ps[1].get_text(), "cd");
}

#[test]
fn text_run_and_paragraph() {
    let run = TextRun::new("héllo".to_string(), TextStyle::default(), 7);
    assert_eq!(run.start, 7);
    assert_eq!(run.end, 13);
    let mut p = Paragraph::new();
    p.add_run(run);
    p.add_run(TextRun::new(" world".to_string(), TextStyle::default(), 0));
    assert_eq!(p.runs[0].start, 0);
    assert_eq!(p.runs[0].end, 6);
    assert_eq!(p.runs[1].start, 6);
    assert_eq!(p.runs[1].end, 12);
    assert_eq!(p.end_offset, 12);
    assert_eq!(p.get_text(), "héllo world");
}

#[test]
fn cursor_position_new() {
    let c = CursorPosition::new(4, 2);
    assert_eq!(c.offset, 4);
    assert_eq!(c.page, 2);
}

#[test]
fn selection_normalize() {
    let s = Selection::new(9, 3);
    assert_eq!(s.normalize(), (3, 9));
    assert!(!s.is_collapsed());
    assert!(Selection::new(2, 2).is_collapsed());
    assert_eq!(Selection::new(1, 5).normalize(), (1, 5));
}

#[test]
fn v2_typing_moves_cursor() {
    let mut d = DocumentV2::new();
    d.insert_text("hello");
    assert_eq!(d.get_text(), "hello");
    assert_eq!(d.get_cursor_position(), 5);
    d.set_cursor_position(2);
    d.insert_text("XY");
    assert_eq!(d.get_text(), "heXYllo");
    assert_eq!(d.get_cursor_position(), 4);
    assert_eq!(d.length(), 7);
}

#[test]
fn v2_typing_replaces_selection() {
    let mut d = DocumentV2::from_text("hello world".to_string());
    d.set_selection(6, 11);
    assert!(d.has_selection());
    assert_eq!(d.get_selected_text(), "world");
    d.insert_text("there");
    assert_eq!(d.get_text(), "hello there");
    assert!(!d.has_selection());
    assert_eq!(d.get_cursor_position(), 11);
}

#[test]
fn v2_backwards_selection_is_normalized() {
    let mut d = DocumentV2::from_text("abcdef".to_string());
    d.set_selection(5, 1);
    assert_eq!(d.get_selection(), Some(vec![1, 5]));
    assert_eq!(d.get_cursor_position(), 1);
    assert_eq!(d.get_selected_text(), "bcde");
    d.set_selection(3, 3);
    assert!(!d.has_selection());
    assert_eq!(d.get_selection(), None);
    assert_eq!(d.get_selected_text(), "");
}

#[test]
fn v2_insert_text_at_moves_later_cursor() {
    let mut d = DocumentV2::from_text("abc".to_string());
    d.set_cursor_position(2);
    d.insert_text_at(1, "ZZ");
    assert_eq!(d.get_text(), "aZZbc");
    assert_eq!(d.get_cursor_position(), 4);
    d.insert_text_at(100, "!");
    assert_eq!(d.get_text(), "aZZbc!");
    assert_eq!(d.get_cursor_position(), 4);
}

#[test]
fn v2_delete_backward_and_forward() {
    let mut d = DocumentV2::from_text("abcdef".to_string());
    d.set_cursor_position(4);
    d.delete_backward(2);
    assert_eq!(d.get_text(), "abef");
    assert_eq!(d.get_cursor_position(), 2);
    d.delete_backward(10);
    assert_eq!(d.get_text(), "ef");
    assert_eq!(d.get_cursor_position(), 0);
    d.delete_backward(1);
    assert_eq!(d.get_text(), "ef");
    d.delete_forward(1);
    assert_eq!(d.get_text(), "f");
    d.delete_forward(5);
    assert_eq!(d.get_text(), "");
    d.delete_forward(1);
    assert_eq!(d.get_text(), "");
}

#[test]
fn v2_delete_backward_removes_selection() {
    let mut d = DocumentV2::from_text("abcdef".to_string());
    d.set_selection(1, 3);
    d.delete_backward(1);
    assert_eq!(d.get_text(), "adef");
    assert_eq!(d.get_cursor_position(), 1);
    d.set_selection(3, 1);
    d.delete_forward(1);
    assert_eq!(d.get_text(), "af");
}

#[test]
fn v2_delete_range_moves_cursor() {
    let mut d = DocumentV2::from_text("0123456789".to_string());
    d.set_cursor_position(8);
    d.delete_range(6, 2);
    assert_eq!(d.get_text(), "016789");
    assert_eq!(d.get_cursor_position(), 4);
    d.set_cursor_position(3);
    d.delete_range(1, 5);
    assert_eq!(d.get_text(), "09");
    assert_eq!(d.get_cursor_position(), 1);
    d.delete_range(1, 1);
    assert_eq!(d.get_text(), "09");
}

#[test]
fn v2_text_range_is_clamped() {
    let d = DocumentV2::from_text("hello".to_string());
    assert_eq!(d.get_text_range(1, 3), "el");
    assert_eq!(d.get_text_range(3, 100), "lo");
    assert_eq!(d.get_text_range(4, 2), "");
}

#[test]
fn v2_lines_and_columns() {
    let d = DocumentV2::from_text("ab\ncde\nf".to_string());
    assert_eq!(d.line_count(), 3);
    assert_eq!(d.get_line(2), Some("cde".to_string()));
    assert_eq!(d.get_line_at_position(0), 1);
    assert_eq!(d.get_line_at_position(3), 2);
    assert_eq!(d.get_line_at_position(100), 3);
    assert_eq!(d.get_column_at_position(5), 2);
    assert_eq!(d.get_column_at_position(2), 2);
    assert_eq!(d.get_column_at_position(3), 0);
}

#[test]
fn v2_cursor_moves() {
    let mut d = DocumentV2::from_text("ab\ncde\nf".to_string());
    d.set_cursor_position(4);
    d.move_cursor_to_line_start();
    assert_eq!(d.get_cursor_position(), 3);
    d.move_cursor_to_line_end();
    assert_eq!(d.get_cursor_position(), 6);
    d.move_cursor(-10);
    assert_eq!(d.get_cursor_position(), 0);
    d.move_cursor(100);
    assert_eq!(d.get_cursor_position(), 8);
    d.move_cursor(-1);
    assert_eq!(d.get_cursor_position(), 7);
    d.set_cursor_position(50);
    assert_eq!(d.get_cursor_position(), 8);
}

#[test]
fn v2_select_all_and_clear() {
    let mut d = DocumentV2::from_text("xyz".to_string());
    d.select_all();
    assert_eq!(d.get_selection(), Some(vec![0, 3]));
    assert_eq!(d.get_cursor_position(), 3);
    d.clear_selection();
    assert!(!d.has_selection());
    let mut e = DocumentV2::new();
    e.select_all();
    assert!(!e.has_selection());
}

#[test]
fn v2_set_cursor_drops_selection() {
    let mut d = DocumentV2::from_text("xyz".to_string());
    d.set_selection(0, 2);
    d.set_cursor_position(1);
    assert!(!d.has_selection());
}
