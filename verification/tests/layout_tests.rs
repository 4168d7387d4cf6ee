use trevia_editor_engine::layout::locate_offset;
use trevia_editor_engine::layout_v2::{line_at_position, locate_position, place_lines, LineSpan};
use trevia_editor_engine::text_bytes::{is_boundary_at, str_eq};

fn span(start: usize, end: usize, row: usize) -> LineSpan {
    LineSpan { start_position: start, end_position: end, row }
}

#[test]
fn empty_text_gets_one_empty_page() {
    let pages = place_lines(&vec![], 5);
    assert_eq!(pages, vec![vec![span(0, 0, 0)]]);
}

#[test]
fn lines_are_placed_in_order_with_newlines_between() {
    // "ab\ncdef\n\ng": lines "ab", "cdef" wrapped as "cd"+"ef", "", "g".
    let source = vec![vec![2], vec![2, 2], vec![0], vec![1]];
    let pages = place_lines(&source, 10);
    assert_eq!(
        pages,
        vec![vec![span(0, 2, 0), span(3, 5, 1), span(5, 7, 2), span(8, 8, 3), span(9, 10, 4)]]
    );
}

#[test]
fn full_pages_then_a_partial_one() {
    let source = vec![vec![1], vec![1], vec![1], vec![1], vec![1]];
    let pages = place_lines(&source, 2);
    assert_eq!(pages.len(), 3);
    assert_eq!(pages[0], vec![span(0, 1, 0), span(2, 3, 1)]);
    assert_eq!(pages[1], vec![span(4, 5, 0), span(6, 7, 1)]);
    assert_eq!(pages[2], vec![span(8, 9, 0)]);
}

#[test]
fn no_rows_per_page_gives_an_empty_first_page() {
    let source = vec![vec![3], vec![2]];
    let pages = place_lines(&source, 0);
    assert_eq!(pages, vec![vec![], vec![span(0, 3, 0)], vec![span(4, 6, 0)]]);
}

#[test]
fn locating_positions_on_pages() {
    let source = vec![vec![1], vec![1], vec![1], vec![1], vec![1]];
    let pages = place_lines(&source, 2);
    assert_eq!(locate_position(&pages, 0), Some((0, 0)));
    assert_eq!(locate_position(&pages, 1), Some((0, 0)));
    assert_eq!(locate_position(&pages, 2), Some((0, 1)));
    assert_eq!(locate_position(&pages, 7), Some((1, 1)));
    assert_eq!(locate_position(&pages, 9), Some((2, 0)));
    assert_eq!(locate_position(&pages, 10), None);
    assert_eq!(line_at_position(&pages, 6), Some(3));
    assert_eq!(line_at_position(&pages, 8), Some(4));
    assert_eq!(line_at_position(&pages, 10), None);
}

#[test]
fn locating_offsets_in_lines() {
    let lens = vec![3, 0, 4];
    assert_eq!(locate_offset(&lens, 0), Some((0, 0)));
    assert_eq!(locate_offset(&lens, 3), Some((0, 3)));
    assert_eq!(locate_offset(&lens, 4), Some((2, 1)));
    assert_eq!(locate_offset(&lens, 7), Some((2, 4)));
    assert_eq!(locate_offset(&lens, 8), None);
    assert_eq!(locate_offset(&vec![], 0), None);
}

#[test]
fn byte_boundaries() {
    let b = "aé".as_bytes();
    assert!(is_boundary_at(b, 0));
    assert!(is_boundary_at(b, 1));
    assert!(!is_boundary_at(b, 2));
    assert!(is_boundary_at(b, 3));
    assert!(!is_boundary_at(b, 4));
}

#[test]
fn string_equality() {
    assert!(str_eq("Home", "Home"));
    assert!(!str_eq("Home", "End"));
    assert!(!str_eq("a", "ab"));
    assert!(str_eq("", ""));
}
