use termbuffer::segment::{count_graphemes, is_blank};
use termbuffer::wrap::{wrap_spans, wrap_to_width, wrap_to_width_offset, WordWrapIter};

fn collect<'a>(mut it: WordWrapIter<'a>) -> Vec<(usize, &'a str)> {
    let mut out = Vec::new();
    while let Some(item) = it.next() {
        out.push(item);
        assert!(out.len() < 10_000);
    }
    out
}

#[test]
fn empty_text_has_no_segments() {
    assert_eq!(Vec::<(usize, &str)>::new(), collect(wrap_to_width("", 10)));
    assert_eq!(Vec::<(usize, &str)>::new(), collect(wrap_to_width_offset("", 10, 4)));
}

#[test]
fn short_text_is_one_segment() {
    assert_eq!(vec![(0, "hello world")], collect(wrap_to_width("hello world", 60)));
}

#[test]
fn a_word_that_does_not_fit_starts_the_next_segment() {
    assert_eq!(vec![(0, "aaa"), (4, "bbb")], collect(wrap_to_width("aaa bbb", 3)));
    assert_eq!(vec![(0, "aaa "), (4, "bbb")], collect(wrap_to_width("aaa bbb", 4)));
    assert_eq!(vec![(0, "aaa "), (4, "bbb")], collect(wrap_to_width("aaa bbb", 6)));
    assert_eq!(vec![(0, "aaa bbb")], collect(wrap_to_width("aaa bbb", 7)));
}

#[test]
fn white_space_at_a_break_is_passed_over() {
    assert_eq!(vec![(0, "aaa"), (7, "bbb")], collect(wrap_to_width("aaa    bbb", 3)));
    assert_eq!(vec![(0, "aaa")], collect(wrap_to_width("aaa   ", 3)));
}

#[test]
fn quick_brown_fox_wraps_at_word_boundaries() {
    let text = "The quick brown fox jumps over the lazy dog. ".repeat(9);
    let segments = collect(wrap_to_width(&text, 60));
    assert!(segments.len() > 1);
    let mut end = 0;
    for (start, segment) in &segments {
        assert!(count_graphemes(segment) <= 60);
        assert!(!segment.starts_with(' '));
        assert_eq!(&text[*start..*start + segment.len()], *segment);
        assert!(*start >= end);
        assert!(text[end..*start].chars().all(|c| c == ' '));
        assert!(*start == 0 || text.as_bytes()[*start - 1] == b' ');
        end = *start + segment.len();
    }
    assert!(text[end..].chars().all(|c| c == ' '));
    assert_eq!((0, "The quick brown fox jumps over the lazy dog. The quick brown"), segments[0]);
    assert_eq!((61, "fox jumps over the lazy dog. The quick brown fox jumps over "), segments[1]);
}

#[test]
fn a_word_wider_than_the_line_is_cut() {
    let text = "x".repeat(80);
    let segments = collect(wrap_to_width(&text, 60));
    assert_eq!(vec![(0, &text[..60]), (60, &text[60..])], segments);
}

#[test]
fn a_wide_word_behind_other_text_is_cut_at_the_width() {
    let text = format!("ab {}", "x".repeat(80));
    let segments = collect(wrap_to_width(&text, 60));
    assert_eq!(vec![(0, "ab "), (3, &text[3..63]), (63, &text[63..])], segments);
    let text = format!("{} {}", "ab ".repeat(40), "x".repeat(130));
    let segments = collect(wrap_to_width(&text, 60));
    let last = segments.len() - 1;
    assert_eq!(60, segments[last - 2].1.len());
    assert_eq!(60, segments[last - 1].1.len());
    assert_eq!(10, segments[last].1.len());
    assert_eq!(text.len(), segments[last].0 + 10);
}

#[test]
fn a_wide_word_is_cut_on_cluster_boundaries() {
    let text = "e\u{301}".repeat(5);
    let segments = collect(wrap_to_width(&text, 2));
    assert_eq!(vec![(0, &text[..6]), (6, &text[6..12]), (12, &text[12..])], segments);
}

#[test]
fn width_zero_gives_one_cluster_at_a_time() {
    assert_eq!(vec![(0, "a"), (1, "b")], collect(wrap_to_width("ab", 0)));
}

#[test]
fn a_line_feed_ends_the_segment() {
    assert_eq!(vec![(0, "abc"), (4, "def")], collect(wrap_to_width("abc\ndef", 60)));
    assert_eq!(vec![(0, "a"), (2, ""), (3, "b")], collect(wrap_to_width("a\n\nb", 60)));
}

#[test]
fn a_line_feed_at_the_end_gives_an_empty_segment() {
    assert_eq!(vec![(0, "abc"), (3, "")], collect(wrap_to_width("abc\n", 60)));
    assert_eq!(vec![(0, "")], collect(wrap_to_width("\n", 60)));
    assert_eq!(vec![(0, ""), (1, "")], collect(wrap_to_width("\n\n", 60)));
}

#[test]
fn the_offset_counts_against_the_first_line() {
    assert_eq!(vec![(0, "aaa "), (4, "bbb")], collect(wrap_to_width_offset("aaa bbb", 10, 4)));
    assert_eq!(vec![(0, ""), (0, "aaa bbb")], collect(wrap_to_width_offset("aaa bbb", 10, 8)));
    assert_eq!(vec![(0, ""), (0, "aaa bbb")], collect(wrap_to_width_offset("aaa bbb", 10, 20)));
}

#[test]
fn a_word_keeps_the_punctuation_behind_it() {
    assert_eq!(
        vec![(0, ""), (0, "dog. "), (5, "cat")],
        collect(wrap_to_width_offset("dog. cat", 5, 2))
    );
    assert_eq!(vec![(0, "dog"), (3, ". "), (5, "cat")], collect(wrap_to_width("dog. cat", 3)));
    assert_eq!(vec![(0, "dog. "), (5, "cat")], collect(wrap_to_width("dog. cat", 5)));
    assert_eq!(vec![(0, "Jim's "), (6, "dog")], collect(wrap_to_width("Jim's dog", 6)));
}

#[test]
fn the_walk_keeps_count_of_the_line() {
    let mut it = wrap_to_width_offset("aaa bbb", 10, 2);
    assert_eq!(Some((0, "aaa bbb")), it.next());
    assert_eq!(9, it.cur_width);
    assert_eq!(7, it.pos);
    assert_eq!(None, it.next());
    let mut it = wrap_to_width("aaa bbb", 4);
    assert_eq!(Some((0, "aaa ")), it.next());
    assert_eq!(0, it.cur_width);
    assert_eq!(4, it.pos);
}

#[test]
fn segments_and_the_gaps_between_them_make_up_the_text() {
    let text = "One  two\nthree    four five\n\nsix seven-eight, nine.  \n";
    for width in [0usize, 1, 3, 5, 8, 60] {
        let mut rebuilt = String::new();
        let mut end = 0;
        for (start, segment) in collect(wrap_to_width(text, width)) {
            assert_eq!(end.max(start), start);
            assert!(text[end..start].chars().all(char::is_whitespace));
            rebuilt.push_str(&text[end..start]);
            rebuilt.push_str(segment);
            end = start + segment.len();
        }
        assert!(text[end..].chars().all(char::is_whitespace));
        rebuilt.push_str(&text[end..]);
        assert_eq!(text, rebuilt);
    }
}

#[test]
fn white_space_is_what_unicode_marks_as_such() {
    let white = [
        '\u{9}', '\u{a}', '\u{b}', '\u{c}', '\u{d}', ' ', '\u{85}', '\u{a0}', '\u{1680}',
        '\u{2000}', '\u{2001}', '\u{2002}', '\u{2003}', '\u{2004}', '\u{2005}', '\u{2006}',
        '\u{2007}', '\u{2008}', '\u{2009}', '\u{200a}', '\u{2028}', '\u{2029}', '\u{202f}',
        '\u{205f}', '\u{3000}',
    ];
    assert_eq!(25, white.len());
    for c in white {
        assert!(is_blank(&c.to_string()), "{:?}", c);
    }
    for c in ['\u{8}', '\u{e}', '\u{1f}', '!', 'a', '\u{84}', '\u{86}', '\u{9f}', '\u{a1}', '\u{167f}', '\u{180e}', '\u{1fff}', '\u{200b}', '\u{2027}', '\u{202a}', '\u{2060}', '\u{2fff}', '\u{3001}', '\u{feff}'] {
        assert!(!is_blank(&c.to_string()), "{:?}", c);
    }
    assert!(is_blank(""));
    assert!(is_blank(" \t\u{3000}"));
    assert!(!is_blank(" \tx "));
    let all = (0..=0x10ffffu32).filter_map(char::from_u32).filter(|c| is_blank(&c.to_string()));
    assert_eq!(white.to_vec(), all.collect::<Vec<_>>());
}

#[test]
fn white_space_of_any_kind_is_passed_over_at_a_break() {
    assert_eq!(vec![(0, "aaa"), (8, "bbb")], collect(wrap_to_width("aaa \t\u{3000}bbb", 3)));
    assert_eq!(
        vec![(0, "aaa"), (3, "\u{200b}"), (6, "bbb")],
        collect(wrap_to_width("aaa\u{200b}bbb", 3))
    );
}

#[test]
fn spans_are_the_segments_with_their_ends() {
    assert_eq!(Vec::<(usize, usize)>::new(), wrap_spans("", 10, 0));
    assert_eq!(vec![(0, 3), (4, 7)], wrap_spans("aaa bbb", 3, 0));
    assert_eq!(vec![(0, 0), (0, 7)], wrap_spans("aaa bbb", 10, 8));
    assert_eq!(vec![(0, 3), (3, 3)], wrap_spans("abc\n", 60, 0));
    let text = "One  two\nthree    four five\n\nsix seven-eight, nine.  \n";
    for width in [0usize, 1, 4, 9, 60] {
        let spans = wrap_spans(text, width, 0);
        let segments = collect(wrap_to_width(text, width));
        assert_eq!(segments.len(), spans.len());
        for (span, segment) in spans.iter().zip(&segments) {
            assert_eq!((span.0, &text[span.0..span.1]), *segment);
        }
    }
}
