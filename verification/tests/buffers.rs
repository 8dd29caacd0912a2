use termbuffer::chgrid::{Rect, Row, Run};
use termbuffer::termbuffer::{Command, TermBuffer, WrapBuffer};

fn area(width: u16, height: u16) -> Rect {
    Rect { x: 2, y: 1, width, height }
}

fn texts(rows: &[Row<u8>]) -> Vec<&str> {
    rows.iter().map(|r| r.text.as_str()).collect()
}

fn starts(row: &Row<u8>) -> Vec<(usize, u8)> {
    row.runs.iter().map(|r| (r.start, r.style)).collect()
}

fn waits(commands: &[Command<u8>]) -> usize {
    commands.iter().filter(|c| matches!(c, Command::WaitForKey)).count()
}

fn print(text: &str, style: u8) -> Command<u8> {
    Command::Print { text: text.to_string(), style }
}

fn plain(text: &str) -> Command<u8> {
    Command::Plain { text: text.to_string() }
}

#[test]
fn print_at_grows_the_buffer_and_queues_the_output() {
    let mut buffer: TermBuffer<u8> = TermBuffer::new(area(20, 5));
    assert_eq!(9, buffer.print_at(4, 2, "hello", 7));
    assert_eq!(vec!["", "", "    hello"], texts(&buffer.rows));
    assert_eq!(vec![(0, 0), (4, 7)], starts(&buffer.rows[2]));
    assert_eq!(
        vec![Command::MoveTo { x: 6, y: 3 }, print("hello", 7), Command::Flush],
        buffer.take_commands()
    );
    assert!(buffer.out.is_empty());
    assert_eq!(11, buffer.print_at(9, 2, "!!", 7));
    assert_eq!(vec!["", "", "    hello!!"], texts(&buffer.rows));
    assert_eq!(vec![(0, 0), (4, 7)], starts(&buffer.rows[2]));
}

#[test]
fn try_print_at_refuses_a_column_beyond_sixteen_bits() {
    let mut buffer: TermBuffer<u8> = TermBuffer::new(area(20, 5));
    assert_eq!(None, buffer.try_print_at(u16::MAX, 0, "x", 1));
    assert!(buffer.rows.is_empty());
    assert!(buffer.out.is_empty());
    assert_eq!(Some(3), buffer.try_print_at(2, 0, "x", 1));
    assert_eq!(vec!["  x"], texts(&buffer.rows));
}

#[test]
fn erase_cuts_the_row_and_blanks_the_line() {
    let mut buffer: TermBuffer<u8> = TermBuffer::new(area(10, 5));
    buffer.print_at(0, 1, "hello", 7);
    buffer.take_commands();
    buffer.erase_line_to_end_at(2, 1);
    assert_eq!(vec!["", "he"], texts(&buffer.rows));
    assert_eq!(
        vec![Command::MoveTo { x: 4, y: 2 }, plain("        "), Command::Flush],
        buffer.take_commands()
    );
}

#[test]
fn refresh_draws_rows_and_blank_lines() {
    let mut buffer: TermBuffer<u8> = TermBuffer::new(area(6, 3));
    buffer.print_at(0, 0, "ab", 1);
    buffer.print_at(2, 0, "cdefgh", 2);
    buffer.print_at(1, 1, "x", 3);
    buffer.take_commands();
    assert!(buffer.can_refresh());
    buffer.refresh();
    assert_eq!(
        vec![
            Command::MoveTo { x: 2, y: 1 },
            print("ab", 1),
            print("cdef", 2),
            Command::MoveTo { x: 2, y: 2 },
            print(" ", 0),
            print("x", 3),
            plain("    "),
            Command::MoveTo { x: 2, y: 3 },
            plain("      "),
            Command::Flush,
        ],
        buffer.take_commands()
    );
}

#[test]
fn refresh_fills_a_line_by_clusters_not_bytes() {
    let mut buffer: TermBuffer<u8> = TermBuffer::new(area(4, 1));
    buffer.print_at(0, 0, "\u{e9}t\u{e9}", 1);
    buffer.take_commands();
    assert_eq!(
        vec![Command::MoveTo { x: 2, y: 1 }, print("\u{e9}t\u{e9}", 1), plain(" "), Command::Flush],
        buffer.render()
    );
}

#[test]
fn text_goes_on_behind_what_is_on_the_last_line() {
    let mut buffer: WrapBuffer<u8> = WrapBuffer::new(area(10, 2));
    buffer.set_more_prompt(9);
    buffer.print("one two");
    buffer.print(" three");
    assert_eq!(vec!["", "one two ", "three"], texts(&buffer.termbuf.rows));
    buffer.print("\n");
    buffer.print("four\n");
    buffer.print("\nfive");
    assert_eq!(
        vec!["", "one two ", "three", "four", "", "", "five"],
        texts(&buffer.termbuf.rows)
    );
    assert_eq!(5, buffer.termbuf.first_row);
    assert_eq!(vec!["one two three\n", "four\n", "\nfive"], texts(&buffer.lines));
}

#[test]
fn refresh_of_a_buffer_without_visible_rows_draws_nothing() {
    let mut buffer: TermBuffer<u8> = TermBuffer::new(area(6, 3));
    assert!(buffer.can_refresh());
    buffer.refresh();
    assert!(buffer.take_commands().is_empty());
    assert_eq!(buffer.render(), Vec::new());
}

#[test]
fn a_row_with_runs_off_the_text_cannot_be_refreshed() {
    let mut buffer: TermBuffer<u8> = TermBuffer::new(area(6, 3));
    buffer.rows.push(Row { runs: vec![Run { start: 0, style: 0 }, Run { start: 9, style: 1 }], text: "abc".to_string() });
    assert!(!buffer.can_refresh());
    buffer.first_row = 1;
    assert!(buffer.can_refresh());
}

#[test]
fn clear_drops_the_rows() {
    let mut buffer: TermBuffer<u8> = TermBuffer::new(area(6, 3));
    buffer.print_at(0, 2, "ab", 1);
    buffer.first_row = 1;
    buffer.take_commands();
    buffer.clear();
    assert!(buffer.rows.is_empty());
    assert_eq!(0, buffer.first_row);
    assert!(buffer.out.is_empty());
}

#[test]
fn resize_moves_the_first_row_only_when_the_last_is_kept() {
    let mut buffer: TermBuffer<u8> = TermBuffer::new(area(6, 24));
    buffer.first_row = 10;
    buffer.resize(area(8, 22), false);
    assert_eq!(10, buffer.first_row);
    assert_eq!(22, buffer.area.height);
    assert_eq!(8, buffer.area.width);
    buffer.resize(area(8, 24), true);
    assert_eq!(10 + 24 - 22, buffer.first_row);
    buffer.first_row = 0;
    buffer.resize(area(8, 3), true);
    assert_eq!(0, buffer.first_row);
    assert!(buffer.out.is_empty());
}

#[test]
fn print_puts_text_on_the_last_line() {
    let mut buffer: WrapBuffer<u8> = WrapBuffer::new(area(10, 3));
    buffer.print_style("hello", &4);
    assert_eq!(vec!["", "", "hello"], texts(&buffer.termbuf.rows));
    assert_eq!(0, buffer.termbuf.first_row);
    assert_eq!(
        vec![Command::MoveTo { x: 2, y: 3 }, print("hello", 4), Command::Flush],
        buffer.take_commands()
    );
    buffer.print_style(" you", &5);
    assert_eq!(vec!["", "", "hello you"], texts(&buffer.termbuf.rows));
    assert_eq!(vec![(0, 4), (5, 5)], starts(&buffer.termbuf.rows[2]));
    assert_eq!(
        vec![Command::MoveTo { x: 7, y: 3 }, print(" you", 5), Command::Flush],
        buffer.take_commands()
    );
    assert_eq!(vec!["hello you"], texts(&buffer.lines));
}

#[test]
fn print_wraps_and_scrolls() {
    let mut buffer: WrapBuffer<u8> = WrapBuffer::new(area(10, 3));
    buffer.set_more_prompt(9);
    buffer.print_style("hello wide world", &4);
    assert_eq!(vec!["", "", "hello wide", "world"], texts(&buffer.termbuf.rows));
    assert_eq!(1, buffer.termbuf.first_row);
    let commands = buffer.take_commands();
    assert_eq!(
        vec![Command::MoveTo { x: 2, y: 3 }, print("hello wide", 4), Command::Flush],
        commands[..3]
    );
    assert_eq!(Command::ScrollUp { fallback: Some(8) }, commands[3]);
    assert_eq!(
        vec![
            Command::MoveTo { x: 2, y: 1 },
            print("", 0),
            plain("          "),
            Command::MoveTo { x: 2, y: 2 },
            print("hello wide", 4),
            Command::MoveTo { x: 2, y: 3 },
            plain("          "),
            Command::Flush,
        ],
        commands[4..12]
    );
    assert_eq!(
        vec![Command::MoveTo { x: 2, y: 3 }, print("world", 4), Command::Flush],
        commands[12..]
    );
    assert_eq!(vec!["hello wide world"], texts(&buffer.lines));
}

#[test]
fn text_after_a_line_feed_starts_a_new_line() {
    let mut buffer: WrapBuffer<u8> = WrapBuffer::new(area(10, 3));
    assert!(buffer.last_line_terminated());
    buffer.print("a\n");
    assert!(buffer.last_line_terminated());
    assert_eq!(1, buffer.lines.len());
    buffer.print("b");
    assert!(!buffer.last_line_terminated());
    assert_eq!(2, buffer.lines.len());
    assert_eq!(vec!["a\n", "b"], texts(&buffer.lines));
    buffer.print("c");
    assert_eq!(vec!["a\n", "bc"], texts(&buffer.lines));
    assert_eq!(vec!["", "", "a", "bc"], texts(&buffer.termbuf.rows));
    assert_eq!(1, buffer.termbuf.first_row);
}

#[test]
fn the_prompt_comes_up_once_for_each_screenful() {
    let mut buffer: WrapBuffer<u8> = WrapBuffer::new(area(10, 3));
    assert_eq!(1, buffer.more_context);
    let mut prompts = Vec::new();
    for _ in 0..7 {
        buffer.scroll_up();
        prompts.push(waits(&buffer.take_commands()));
    }
    assert_eq!(vec![0, 0, 1, 0, 0, 1, 0], prompts);
    assert_eq!(1, buffer.more_lines);
    assert_eq!(7, buffer.termbuf.first_row);
}

#[test]
fn the_prompt_is_written_waited_for_and_erased() {
    let mut buffer: WrapBuffer<u8> = WrapBuffer::new(area(10, 1));
    buffer.set_more_prompt(0);
    buffer.scroll_up();
    assert_eq!(vec![Command::ScrollUp { fallback: Some(0) }], buffer.take_commands());
    assert_eq!(1, buffer.more_lines);
    buffer.scroll_up();
    assert_eq!(
        vec![
            Command::ScrollUp { fallback: Some(0) },
            Command::MoveTo { x: 2, y: 1 },
            print("[more]", 0),
            Command::Flush,
            Command::WaitForKey,
            Command::MoveTo { x: 2, y: 1 },
            plain("          "),
            Command::Flush,
        ],
        buffer.take_commands()
    );
    assert_eq!(vec!["", "", ""], texts(&buffer.termbuf.rows));
    assert_eq!(0, buffer.more_lines);
}

#[test]
fn resetting_the_counter_puts_the_prompt_off() {
    let mut buffer: WrapBuffer<u8> = WrapBuffer::new(area(10, 3));
    buffer.scroll_up();
    buffer.scroll_up();
    assert_eq!(2, buffer.more_lines);
    buffer.reset_more_counter();
    assert_eq!(0, buffer.more_lines);
    buffer.scroll_up();
    buffer.scroll_up();
    assert_eq!(0, waits(&buffer.take_commands()));
    buffer.scroll_up();
    assert_eq!(1, waits(&buffer.take_commands()));
}

#[test]
fn a_context_taller_than_the_region_turns_the_prompt_off() {
    let mut buffer: WrapBuffer<u8> = WrapBuffer::new(area(10, 3));
    buffer.set_more_prompt(4);
    for _ in 0..10 {
        buffer.scroll_up();
    }
    assert_eq!(0, waits(&buffer.take_commands()));
    assert_eq!(0, buffer.more_lines);
}

#[test]
fn printing_many_lines_prompts_on_the_way() {
    let mut buffer: WrapBuffer<u8> = WrapBuffer::new(area(10, 3));
    buffer.print("one two three four five six seven eight nine ten eleven twelve");
    let commands = buffer.take_commands();
    assert_eq!(2, waits(&commands));
    assert_eq!(
        vec!["", "", "one two ", "three four", "five six ", "seven ", "eight nine", "ten eleven", "twelve"],
        texts(&buffer.termbuf.rows)
    );
    assert_eq!(6, buffer.termbuf.first_row);
    assert_eq!(0, buffer.more_lines);
}

#[test]
fn a_scroll_without_redraw_when_a_row_is_broken() {
    let mut buffer: WrapBuffer<u8> = WrapBuffer::new(area(10, 3));
    buffer.set_more_prompt(9);
    buffer.termbuf.rows.push(Row::new());
    buffer.termbuf.rows.push(Row { runs: vec![Run { start: 0, style: 0 }, Run { start: 9, style: 1 }], text: "abc".to_string() });
    buffer.scroll_up();
    assert_eq!(vec![Command::ScrollUp { fallback: None }], buffer.take_commands());
}

#[test]
fn clear_drops_lines_and_rows() {
    let mut buffer: WrapBuffer<u8> = WrapBuffer::new(area(10, 3));
    buffer.print("hello wide world\n");
    buffer.take_commands();
    buffer.clear();
    assert!(buffer.lines.is_empty());
    assert!(buffer.termbuf.rows.is_empty());
    assert_eq!(0, buffer.termbuf.first_row);
    assert!(buffer.take_commands().is_empty());
}

#[test]
fn rewrap_makes_the_rows_anew_with_their_styles() {
    let mut buffer: WrapBuffer<u8> = WrapBuffer::new(area(20, 2));
    buffer.set_more_prompt(9);
    buffer.print_style("hello ", &1);
    buffer.print_style("wide world\n", &2);
    buffer.print_style("bye", &3);
    buffer.take_commands();
    buffer.resize(area(10, 2), false);
    buffer.rewrap();
    assert_eq!(vec!["hello wide", "world", "", "bye"], texts(&buffer.termbuf.rows));
    assert_eq!(vec![(0, 1), (6, 2)], starts(&buffer.termbuf.rows[0]));
    assert_eq!(vec![(0, 2)], starts(&buffer.termbuf.rows[1]));
    assert_eq!(vec![(0, 0)], starts(&buffer.termbuf.rows[2]));
    assert_eq!(vec![(0, 3)], starts(&buffer.termbuf.rows[3]));
    assert_eq!(2, buffer.termbuf.first_row);
    assert_eq!(
        vec![
            Command::MoveTo { x: 2, y: 1 },
            print("", 0),
            plain("          "),
            Command::MoveTo { x: 2, y: 2 },
            print("bye", 3),
            plain("       "),
            Command::Flush,
        ],
        buffer.take_commands()
    );
}

#[test]
fn rewrap_fills_a_region_taller_than_the_text() {
    let mut buffer: WrapBuffer<u8> = WrapBuffer::new(area(20, 4));
    buffer.print_style("hello", &1);
    buffer.take_commands();
    buffer.rewrap();
    assert_eq!(vec!["", "", "", "hello"], texts(&buffer.termbuf.rows));
    assert_eq!(0, buffer.termbuf.first_row);
    assert_eq!(13, buffer.take_commands().len());
}

#[test]
fn a_region_without_lines_has_no_room_to_print() {
    let buffer: WrapBuffer<u8> = WrapBuffer::new(area(10, 0));
    assert!(!buffer.can_print("a"));
    let mut buffer: WrapBuffer<u8> = WrapBuffer::new(area(10, 1));
    assert!(buffer.can_print("a"));
    buffer.termbuf.first_row = u32::MAX - 4;
    assert!(!buffer.can_print("a"));
    assert!(buffer.can_print(""));
    buffer.termbuf.first_row = u32::MAX - 3;
    assert!(!buffer.can_print(""));
}

#[test]
fn a_region_without_columns_takes_one_cluster_on_each_line() {
    let mut buffer: WrapBuffer<u8> = WrapBuffer::new(area(0, 2));
    buffer.set_more_prompt(9);
    buffer.print("ab c");
    assert_eq!(vec!["", "a", "b", " ", "c"], texts(&buffer.termbuf.rows));
    assert_eq!(3, buffer.termbuf.first_row);
}

#[test]
fn text_behind_a_full_line_goes_below_an_empty_segment() {
    let mut buffer: WrapBuffer<u8> = WrapBuffer::new(area(5, 2));
    buffer.set_more_prompt(9);
    buffer.print("abcde");
    buffer.print("fg");
    assert_eq!(vec!["", "abcde", "", "fg"], texts(&buffer.termbuf.rows));
    assert_eq!(2, buffer.termbuf.first_row);
}

#[test]
fn print_at_beyond_the_end_of_a_row_pads_it() {
    let mut buffer: TermBuffer<u8> = TermBuffer::new(area(20, 5));
    buffer.first_row = 2;
    assert_eq!(4, buffer.print_at(3, 0, "x", 9));
    assert_eq!(vec!["", "", "   x"], texts(&buffer.rows));
    assert_eq!(Command::MoveTo { x: 5, y: 1 }, buffer.take_commands()[0]);
}
