use carbon::table::{Table, visible_len};
use carbon::strings::cut;

#[test]
fn test_header() {
    let mut table = Table::new(3, vec![], vec![]);
    table.header(vec!["<cyan>a</>", "<bright-green>a</>", "a"]);
}

#[test]
fn visible_len_ignores_color_tags() {
    assert_eq!(visible_len("<cyan>a</>"), 1);
    assert_eq!(visible_len("<bright-green>ab</>"), 2);
    assert_eq!(visible_len("plain"), 5);
    assert_eq!(visible_len(""), 0);
    assert_eq!(visible_len("<>"), 0);
}

#[test]
fn add_row_tracks_widest_visible_cell() {
    let mut table = Table::new(2, vec![], vec![]);
    table.row(vec!["<cyan>ab</>", "xyz"]);
    table.row(vec!["wide cell", "z"]);
    assert_eq!(table.count(), 2);
    assert_eq!(table.column_longest(0), 9);
    assert_eq!(table.column_longest(1), 3);
    assert_eq!(table.column(0).len(), 2);
    assert_eq!(table.column(0)[0], "<cyan>ab</>");
    assert_eq!(table.column(1)[1], "z");
}

#[test]
fn new_fills_padding_and_alignment_defaults() {
    let table = Table::new(3, vec![7], vec!['^']);
    assert_eq!(table.column_alignment(0), '^');
    assert_eq!(table.column_alignment(1), '<');
    assert_eq!(table.column_alignment(2), '<');
}

#[test]
fn footer_pads_to_combined_width() {
    let mut table = Table::new(2, vec![4, 6], vec![]);
    table.footer("hi");
    assert_eq!(table.footer_rows().len(), 1);
    assert_eq!(table.footer_rows()[0], "hi        ");
}

#[test]
fn cut_shortens_long_text() {
    let long = "abcdefghij0123456789ABCDEFGHIJKLMNOPQRST";
    assert_eq!(cut(long, 30), "abcdefghij...ABCDEFGHIJKLMNOPQRST");
    assert_eq!(cut("short", 30), "short");
}
