use crossterm::style::{Color, ContentStyle};
use termbuffer::chgrid::{Row, Run};
use termbuffer::segment::count_graphemes;

fn starts(row: &Row<u8>) -> Vec<(usize, u8)> {
    row.runs.iter().map(|r| (r.start, r.style)).collect()
}

fn styled(text: &str, runs: &[(usize, u8)]) -> Row<u8> {
    Row {
        runs: runs.iter().map(|&(start, style)| Run { start, style }).collect(),
        text: text.to_string(),
    }
}

#[test]
fn test_overwrite() {
    let mut row = Row::new();
    row.overwrite_at(10, &"a".repeat(20), &ContentStyle::new());
    let mut iter = row.iter_run_ranges();
    assert_eq!(Some(0..30), iter.next());

    row.overwrite_at(15, &"b".repeat(5), &ContentStyle::new().background(Color::Red));
    println!("{:?}", row);
    let mut iter = row.iter_run_ranges();
    assert_eq!(Some(0..15), iter.next());
    assert_eq!(Some(15..20), iter.next());
    assert_eq!(Some(20..30), iter.next());
}

#[test]
fn overwrite_restores_the_style_behind_the_text() {
    let mut row: Row<u8> = Row::new();
    assert_eq!(30, row.overwrite_at(10, &"a".repeat(20), &0));
    assert_eq!(format!("{}{}", " ".repeat(10), "a".repeat(20)), row.text);
    assert_eq!(vec![(0, 0)], starts(&row));
    assert_eq!(20, row.overwrite_at(15, "bbbbb", &1));
    assert_eq!(vec![(0, 0), (15, 1), (20, 0)], starts(&row));
    assert_eq!(&row.text[15..20], "bbbbb");
    assert!(row.is_wf());
}

#[test]
fn new_row_is_empty_with_one_default_run() {
    let row: Row<u8> = Row::new();
    assert_eq!("", row.text);
    assert_eq!(vec![(0, 0)], starts(&row));
    assert!(row.is_wf());
    let mut ranges = row.iter_run_ranges();
    assert_eq!(Some(0..0), ranges.next());
    assert_eq!(None, ranges.next());
}

#[test]
fn count_graphemes_counts_clusters_not_bytes() {
    assert_eq!(0, count_graphemes(""));
    assert_eq!(3, count_graphemes("abc"));
    assert_eq!(4, count_graphemes("a\u{310}e\u{301}o\u{308}\u{332}\r\n"));
    assert_eq!(1, count_graphemes("\u{1F1F7}\u{1F1FA}"));
}

#[test]
fn find_grapheme_index_inside_the_text() {
    let row = styled("a\u{310}e\u{301}o", &[(0, 0)]);
    assert_eq!((0, 0), row.find_grapheme_index(0));
    assert_eq!((3, 0), row.find_grapheme_index(1));
    assert_eq!((6, 0), row.find_grapheme_index(2));
}

#[test]
fn find_grapheme_index_inside_the_text_is_a_character_boundary() {
    let row = styled("a\u{310}e\u{301}o\u{1F1F7}\u{1F1FA}z", &[(0, 0)]);
    for n in 0..5u16 {
        let (at, pad) = row.find_grapheme_index(n);
        assert_eq!(0, pad);
        assert!(at < row.text.len());
        assert!(row.text.is_char_boundary(at));
    }
    assert_eq!((15, 0), row.find_grapheme_index(4));
    assert_eq!((row.text.len(), 0), row.find_grapheme_index(5));
}

#[test]
fn find_grapheme_index_at_and_beyond_the_end() {
    let row = styled("a\u{310}e\u{301}o", &[(0, 0)]);
    assert_eq!((7, 0), row.find_grapheme_index(3));
    assert_eq!((8, 1), row.find_grapheme_index(4));
    assert_eq!((17, 10), row.find_grapheme_index(13));
    let empty: Row<u8> = Row::new();
    assert_eq!((0, 0), empty.find_grapheme_index(0));
    assert_eq!((5, 5), empty.find_grapheme_index(5));
}

#[test]
fn overwrite_with_nothing_changes_nothing() {
    let mut row = styled("hello", &[(0, 0), (2, 1)]);
    assert_eq!(3, row.overwrite_at(3, "", &7));
    assert_eq!("hello", row.text);
    assert_eq!(vec![(0, 0), (2, 1)], starts(&row));
}

#[test]
fn overwrite_counts_clusters_when_replacing() {
    let mut row = styled("a\u{310}e\u{301}o", &[(0, 0)]);
    assert_eq!(3, row.overwrite_at(1, "xy", &0));
    assert_eq!("a\u{310}xy", row.text);
}

#[test]
fn text_written_is_read_back_from_its_clusters() {
    for (before, at, text) in [("a\u{310}e\u{301}o", 1u16, "xy"), ("abc", 5, "e\u{301}f"), ("", 0, "z")] {
        let mut row = styled(before, &[(0, 0)]);
        let next = row.overwrite_at(at, text, &1);
        let from = row.find_grapheme_index(at);
        let to = row.find_grapheme_index(next);
        assert_eq!((0, 0), (from.1, to.1));
        assert_eq!(text, &row.text[from.0..to.0]);
    }
}

#[test]
fn a_combining_mark_joins_the_cluster_before_it() {
    let mut row = styled("e", &[(0, 0)]);
    assert_eq!(2, row.overwrite_at(1, "\u{301}", &1));
    assert_eq!("e\u{301}", row.text);
    assert_eq!(1, count_graphemes(&row.text));
    assert_eq!((3, 0), row.find_grapheme_index(1));
}

#[test]
fn overwrite_past_the_end_of_the_text_replaces_what_is_there() {
    let mut row = styled("abc", &[(0, 0)]);
    assert_eq!(6, row.overwrite_at(1, "vwxyz", &1));
    assert_eq!("avwxyz", row.text);
    assert_eq!(vec![(0, 0), (1, 1)], starts(&row));
    assert!(row.is_wf());
}

#[test]
fn overwrite_of_another_byte_length_leaves_later_runs_where_they_were() {
    let mut row = styled("\u{e9}\u{e9}\u{e9}", &[(0, 0), (4, 1)]);
    assert!(row.is_wf());
    row.overwrite_at(0, "abc", &2);
    assert_eq!("abc", row.text);
    assert_eq!(vec![(0, 2), (4, 1)], starts(&row));
    assert!(!row.is_wf());
}

#[test]
fn try_overwrite_refuses_an_index_beyond_sixteen_bits() {
    let mut row = styled("abc", &[(0, 0)]);
    assert_eq!(None, row.try_overwrite_at(u16::MAX, "x", &1));
    assert_eq!("abc", row.text);
    assert_eq!(vec![(0, 0)], starts(&row));
    assert_eq!(Some(u16::MAX), row.try_overwrite_at(u16::MAX - 1, "x", &1));
    assert_eq!(Some(2), row.try_overwrite_at(1, "y", &1));
}

#[test]
fn apply_style_inside_the_last_run() {
    let mut row = styled(&"x".repeat(20), &[(0, 0)]);
    row.apply_style(5, 15, &2);
    assert_eq!(vec![(0, 0), (5, 2), (15, 0)], starts(&row));
}

#[test]
fn apply_style_inside_a_run_that_is_not_the_last() {
    let mut row = styled(&"x".repeat(20), &[(0, 0), (10, 1), (15, 3)]);
    row.apply_style(2, 5, &2);
    assert_eq!(vec![(0, 0), (2, 2), (5, 0), (10, 1), (15, 3)], starts(&row));
    assert!(row.is_wf());
}

#[test]
fn apply_style_across_runs_drops_the_runs_inside() {
    let mut row = styled(&"x".repeat(20), &[(0, 0), (10, 1), (15, 3)]);
    row.apply_style(5, 17, &2);
    assert_eq!(vec![(0, 0), (5, 2), (17, 3)], starts(&row));
}

#[test]
fn apply_style_merges_with_equal_neighbours() {
    let mut row = styled(&"x".repeat(20), &[(0, 0), (10, 1), (15, 3)]);
    row.apply_style(10, 12, &0);
    assert_eq!(vec![(0, 0), (12, 1), (15, 3)], starts(&row));
    let mut row = styled(&"x".repeat(20), &[(0, 0), (10, 2)]);
    row.apply_style(5, 12, &2);
    assert_eq!(vec![(0, 0), (5, 2)], starts(&row));
}

#[test]
fn apply_style_from_the_start_and_to_the_end() {
    let mut row = styled(&"x".repeat(20), &[(0, 0), (10, 1)]);
    row.apply_style(0, 5, &2);
    assert_eq!(vec![(0, 2), (5, 0), (10, 1)], starts(&row));
    row.apply_style(12, 20, &4);
    assert_eq!(vec![(0, 2), (5, 0), (10, 1), (12, 4)], starts(&row));
}

#[test]
fn apply_style_to_an_empty_range_changes_nothing() {
    let mut row = styled(&"x".repeat(20), &[(0, 0), (10, 1)]);
    row.apply_style(5, 5, &2);
    assert_eq!(vec![(0, 0), (10, 1)], starts(&row));
    row.apply_style(20, 20, &2);
    assert_eq!(vec![(0, 0), (10, 1)], starts(&row));
}

#[test]
fn the_same_style_twice_is_the_style_once_over_both_ranges() {
    let runs = [(0, 0), (12, 1), (25, 0)];
    for (first, second) in [((5, 15), (10, 20)), ((10, 20), (5, 15)), ((5, 20), (8, 12)), ((5, 10), (10, 20))] {
        let mut twice = styled(&"x".repeat(30), &runs);
        twice.apply_style(first.0, first.1, &2);
        twice.apply_style(second.0, second.1, &2);
        let mut once = styled(&"x".repeat(30), &runs);
        once.apply_style(first.0.min(second.0), first.1.max(second.1), &2);
        assert_eq!(starts(&once), starts(&twice));
        assert!(twice.is_wf());
    }
}

#[test]
fn append_styles_the_new_text() {
    let mut row: Row<u8> = Row::new();
    row.append("abc", &0);
    assert_eq!(vec![(0, 0)], starts(&row));
    row.append("def", &1);
    assert_eq!("abcdef", row.text);
    assert_eq!(vec![(0, 0), (3, 1)], starts(&row));
    row.append("", &2);
    assert_eq!(vec![(0, 0), (3, 1)], starts(&row));
    row.append("g", &1);
    assert_eq!(vec![(0, 0), (3, 1)], starts(&row));
    assert!(row.is_wf());
}

#[test]
fn truncate_cuts_the_text_and_drops_the_runs_behind_the_cut() {
    let mut row = styled("hello world", &[(0, 0), (3, 1), (6, 2)]);
    row.truncate_at(3);
    assert_eq!("hel", row.text);
    assert_eq!(vec![(0, 0), (3, 1)], starts(&row));
    assert!(row.is_wf());
    row.truncate_at(0);
    assert_eq!("", row.text);
    assert_eq!(vec![(0, 0)], starts(&row));
}

#[test]
fn truncate_beyond_the_end_changes_nothing() {
    let mut row = styled("hello", &[(0, 0), (3, 1)]);
    row.truncate_at(5);
    assert_eq!("hello", row.text);
    row.truncate_at(9);
    assert_eq!("hello", row.text);
    assert_eq!(vec![(0, 0), (3, 1)], starts(&row));
}

#[test]
fn run_ranges_cover_the_text_in_order() {
    let row = styled("hello world", &[(0, 0), (3, 1), (6, 2)]);
    let mut ranges = row.iter_run_ranges();
    assert_eq!(Some(0..3), ranges.next());
    assert_eq!(Some(3..6), ranges.next());
    assert_eq!(Some(6..11), ranges.next());
    assert_eq!(None, ranges.next());
    assert_eq!(None, ranges.next());
}

#[test]
fn iter_hands_out_each_run_with_its_style() {
    let row = styled("hello world", &[(0, 0), (3, 1), (6, 2)]);
    let mut iter = row.iter();
    assert_eq!(Some(("hel", &0)), iter.next());
    assert_eq!(Some(("lo ", &1)), iter.next());
    assert_eq!(Some(("world", &2)), iter.next());
    assert_eq!(None, iter.next());
}

#[test]
fn iter_width_cuts_the_run_that_passes_the_width() {
    let row = styled("hello world", &[(0, 0), (3, 1), (6, 2)]);
    let mut iter = row.iter_width(8);
    assert_eq!(Some(("hel", &0)), iter.next());
    assert_eq!(Some(("lo ", &1)), iter.next());
    assert_eq!(Some(("wo", &2)), iter.next());
    assert_eq!(None, iter.next());
    let mut iter = row.iter_width(3);
    assert_eq!(Some(("hel", &0)), iter.next());
    assert_eq!(None, iter.next());
    let mut iter = row.iter_width(0);
    assert_eq!(None, iter.next());
}

#[test]
fn iter_width_cuts_on_cluster_boundaries() {
    let row = styled("a\u{310}e\u{301}o", &[(0, 0)]);
    let mut iter = row.iter_width(2);
    assert_eq!(Some(("a\u{310}e\u{301}", &0)), iter.next());
    assert_eq!(None, iter.next());
}

#[test]
fn is_wf_finds_runs_out_of_order_or_off_a_boundary() {
    assert!(styled("h\u{e9}llo", &[(0, 0), (1, 1), (3, 2)]).is_wf());
    assert!(!styled("h\u{e9}llo", &[(0, 0), (2, 1)]).is_wf());
    assert!(!styled("hello", &[(0, 0), (3, 1), (3, 2)]).is_wf());
    assert!(!styled("hello", &[(1, 0)]).is_wf());
    assert!(!styled("hello", &[(0, 0), (6, 1)]).is_wf());
    assert!(!styled("hello", &[]).is_wf());
    assert!(styled("hello", &[(0, 0), (5, 1)]).is_wf());
}
