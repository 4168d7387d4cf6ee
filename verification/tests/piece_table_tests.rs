use trevia_editor_engine::piece::{BufferType, Piece};
use trevia_editor_engine::piece_table::PieceTable;

#[test]
fn new_table_is_empty_with_one_line() {
    let t = PieceTable::new();
    assert_eq!(t.length(), 0);
    assert_eq!(t.line_count(), 1);
    assert_eq!(t.get_text(), "");
}

#[test]
fn from_text_counts_lines() {
    let t = PieceTable::from_text("a\nbc\nd".to_string());
    assert_eq!(t.length(), 6);
    assert_eq!(t.line_count(), 3);
    assert_eq!(t.get_text(), "a\nbc\nd");
}

#[test]
fn insert_at_start_middle_and_end() {
    let mut t = PieceTable::from_text("hello".to_string());
    t.insert(0, ">");
    assert_eq!(t.get_text(), ">hello");
    t.insert(3, "--");
    assert_eq!(t.get_text(), ">he--llo");
    t.insert(t.length(), "!");
    assert_eq!(t.get_text(), ">he--llo!");
    assert_eq!(t.length(), 9);
}

#[test]
fn insert_past_end_appends() {
    let mut t = PieceTable::from_text("ab".to_string());
    t.insert(100, "cd");
    assert_eq!(t.get_text(), "abcd");
}

#[test]
fn insert_empty_changes_nothing() {
    let mut t = PieceTable::from_text("ab".to_string());
    t.insert(1, "");
    assert_eq!(t.get_text(), "ab");
    assert_eq!(t.length(), 2);
}

#[test]
fn insert_counts_new_lines() {
    let mut t = PieceTable::new();
    t.insert(0, "x\ny\nz");
    assert_eq!(t.line_count(), 3);
}

#[test]
fn delete_within_one_piece() {
    let mut t = PieceTable::from_text("abcdef".to_string());
    t.delete(2, 2);
    assert_eq!(t.get_text(), "abef");
    assert_eq!(t.length(), 4);
}

#[test]
fn delete_across_pieces() {
    let mut t = PieceTable::from_text("abc".to_string());
    t.insert(3, "def");
    t.insert(6, "ghi");
    t.delete(1, 7);
    assert_eq!(t.get_text(), "ai");
}

#[test]
fn delete_past_end_is_clamped() {
    let mut t = PieceTable::from_text("abcdef".to_string());
    t.delete(4, 100);
    assert_eq!(t.get_text(), "abcd");
    t.delete(10, 1);
    assert_eq!(t.get_text(), "abcd");
    t.delete(0, 0);
    assert_eq!(t.get_text(), "abcd");
}

#[test]
fn delete_inside_piece_with_newline_counts_it() {
    let mut t = PieceTable::from_text("a\nb\nc".to_string());
    t.insert(5, "d");
    t.delete(0, 3);
    assert_eq!(t.get_text(), "\ncd");
}

#[test]
fn whole_piece_removal_keeps_line_count() {
    // Removing a whole piece leaves the kept line count as it was.
    let mut t = PieceTable::from_text("a\nb".to_string());
    t.delete(0, 3);
    assert_eq!(t.get_text(), "");
    assert_eq!(t.line_count(), 2);
}

#[test]
fn insert_then_delete_restores_text() {
    let mut t = PieceTable::from_text("hello world".to_string());
    t.insert(5, ", big");
    assert_eq!(t.get_text(), "hello, big world");
    t.delete(5, 5);
    assert_eq!(t.get_text(), "hello world");
}

#[test]
fn get_line_reads_each_line() {
    let t = PieceTable::from_text("one\ntwo\nthree".to_string());
    assert_eq!(t.get_line(0), None);
    assert_eq!(t.get_line(1), Some("one".to_string()));
    assert_eq!(t.get_line(2), Some("two".to_string()));
    assert_eq!(t.get_line(3), Some("three".to_string()));
    assert_eq!(t.get_line(4), None);
}

#[test]
fn get_line_of_empty_text_is_none() {
    let t = PieceTable::new();
    assert_eq!(t.get_line(1), None);
}

#[test]
fn get_line_start_positions() {
    let t = PieceTable::from_text("ab\ncd\nef".to_string());
    assert_eq!(t.get_line_start_position(0), None);
    assert_eq!(t.get_line_start_position(1), Some(0));
    assert_eq!(t.get_line_start_position(2), Some(3));
    assert_eq!(t.get_line_start_position(3), Some(6));
    assert_eq!(t.get_line_start_position(4), None);
}

#[test]
fn multibyte_text_round_trips() {
    let mut t = PieceTable::from_text("olá".to_string());
    assert_eq!(t.length(), 4);
    t.insert(4, " ção");
    assert_eq!(t.get_text(), "olá ção");
    t.delete(2, 2);
    assert_eq!(t.get_text(), "ol ção");
}

#[test]
fn piece_split_at_divides_breaks() {
    let mut p = Piece::new(BufferType::Add, 10, 6);
    p.line_breaks = vec![1, 4];
    let (a, b) = p.split_at(3);
    assert_eq!(a.start, 10);
    assert_eq!(a.length, 3);
    assert_eq!(a.line_breaks, vec![1]);
    assert_eq!(b.start, 13);
    assert_eq!(b.length, 3);
    assert_eq!(b.line_breaks, vec![1]);
    assert_eq!(b.buffer_type, BufferType::Add);
}

#[test]
fn piece_new_has_no_breaks() {
    let p = Piece::new(BufferType::Original, 0, 5);
    assert_eq!(p.buffer_type, BufferType::Original);
    assert_eq!(p.start, 0);
    assert_eq!(p.length, 5);
    assert!(p.line_breaks.is_empty());
}

#[test]
fn text_bytes_matches_text() {
    let mut t = PieceTable::from_text("ab".to_string());
    t.insert(1, "Z");
    assert_eq!(t.text_bytes(), b"aZb".to_vec());
}

#[test]
fn insertions_keep_line_count_exact() {
    let mut t = PieceTable::from_text("a\nb".to_string());
    t.insert(1, "x\ny\n");
    t.insert(0, "\n");
    let text = t.get_text();
    assert_eq!(text, "\nax\ny\n\nb");
    assert_eq!(t.line_count(), 1 + text.matches('\n').count());
}

#[test]
fn deleting_inside_a_piece_keeps_line_count() {
    // A deletion strictly inside one piece leaves the kept line count as it was.
    let mut t = PieceTable::from_text("a\nb\nc".to_string());
    t.delete(1, 2);
    assert_eq!(t.get_text(), "a\nc");
    assert_eq!(t.line_count(), 3);
}

#[test]
fn delete_takes_no_more_lines_than_it_removes() {
    let mut t = PieceTable::from_text("a\nb\nc".to_string());
    t.insert(5, "\nd");
    let before = t.get_text();
    let lines_before = t.line_count();
    t.delete(1, 5);
    let removed = &before[1..6];
    assert!(lines_before - t.line_count() <= removed.matches('\n').count());
    assert_eq!(t.get_text(), "ad");
}

#[test]
fn empty_insert_leaves_table_unchanged() {
    let mut t = PieceTable::from_text("é".to_string());
    t.insert(1, "");
    assert_eq!(t.get_text(), "é");
    assert_eq!(t.get_line(1), Some("é".to_string()));
}

#[test]
fn deleting_from_the_middle_of_the_only_piece_keeps_three_lines() {
    let mut t = PieceTable::from_text("a\nb\nc".to_string());
    t.delete(1, 2);
    assert_eq!(t.get_text(), "a\nc");
    assert_eq!(t.line_count(), 3);
}
