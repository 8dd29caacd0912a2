use termbuffer::chgrid::Rect;
use termbuffer::keys::{char_from_key_event, has_code, Key, Modifiers};
use termbuffer::termbuffer::Command;
use termbuffer::style::{text_style, TextStyle, Tint};
use termbuffer::ui_terminal::{
    clean_input, decimal, layout, set_cursor_at, status_text, Point, TerminalUI,
};
use termbuffer::ui_web::{lines, status_message, Token, WebUI};

const NONE: Modifiers = Modifiers { shift: false, control: false, alt: false };
const SHIFT: Modifiers = Modifiers { shift: true, control: false, alt: false };
const CONTROL: Modifiers = Modifiers { shift: false, control: true, alt: false };
const ALT: Modifiers = Modifiers { shift: false, control: false, alt: true };

const PLAIN: TextStyle = TextStyle { reverse: false, bold: false, italic: false, tint: Tint::Plain };
const BAR: TextStyle = TextStyle { reverse: true, bold: false, italic: false, tint: Tint::Plain };

fn print(text: &str, style: TextStyle) -> Command<TextStyle> {
    Command::Print { text: text.to_string(), style }
}

fn terminal() -> TerminalUI {
    let mut ui = TerminalUI::new_with_width(20, Some((30, 10)), true);
    ui.take_commands();
    ui
}

#[test]
fn letters_go_by_their_modifiers() {
    assert_eq!('a', char_from_key_event(Key::Char('a'), NONE));
    assert_eq!('A', char_from_key_event(Key::Char('a'), SHIFT));
    assert_eq!('Z', char_from_key_event(Key::Char('z'), SHIFT));
    assert_eq!('\u{1}', char_from_key_event(Key::Char('a'), CONTROL));
    assert_eq!('\u{3}', char_from_key_event(Key::Char('c'), CONTROL));
    assert_eq!('\u{1a}', char_from_key_event(Key::Char('Z'), CONTROL));
    assert_eq!('\u{0}', char_from_key_event(Key::Char('a'), ALT));
    assert_eq!('\u{0}', char_from_key_event(Key::Char('Q'), ALT));
    assert_eq!('Q', char_from_key_event(Key::Char('Q'), SHIFT));
    assert_eq!(
        '\u{0}',
        char_from_key_event(Key::Char('q'), Modifiers { shift: true, control: true, alt: true })
    );
}

#[test]
fn other_characters_count_only_without_modifiers() {
    assert_eq!('1', char_from_key_event(Key::Char('1'), NONE));
    assert_eq!('\u{e9}', char_from_key_event(Key::Char('\u{e9}'), NONE));
    assert_eq!('\u{0}', char_from_key_event(Key::Char('1'), SHIFT));
    assert_eq!('\u{0}', char_from_key_event(Key::Char('?'), CONTROL));
}

#[test]
fn named_keys_have_their_codes() {
    assert_eq!('\u{1b}', char_from_key_event(Key::Esc, NONE));
    assert_eq!('\u{81}', char_from_key_event(Key::Up, SHIFT));
    assert_eq!('\u{82}', char_from_key_event(Key::Down, NONE));
    assert_eq!('\u{83}', char_from_key_event(Key::Left, NONE));
    assert_eq!('\u{84}', char_from_key_event(Key::Right, NONE));
    assert_eq!('\u{8}', char_from_key_event(Key::Backspace, NONE));
    assert_eq!('\u{d}', char_from_key_event(Key::Enter, NONE));
    assert_eq!('\u{9}', char_from_key_event(Key::Tab, NONE));
    assert_eq!('\u{7f}', char_from_key_event(Key::Delete, NONE));
    assert_eq!('\u{84}', char_from_key_event(Key::F(0), NONE));
    assert_eq!('\u{85}', char_from_key_event(Key::F(1), NONE));
    assert_eq!('\u{fe}', char_from_key_event(Key::F(122), NONE));
    assert!(has_code(Key::F(122)));
    assert!(!has_code(Key::F(123)));
    assert!(has_code(Key::Char('x')));
    assert_eq!('\u{90}', char_from_key_event(Key::F(12), NONE));
    assert_eq!('\u{0}', char_from_key_event(Key::Other, NONE));
}

#[test]
fn layout_centres_text_on_a_wide_terminal() {
    let l = layout(60, Some((100, 30)));
    assert_eq!((60, 30), (l.width, l.height));
    assert_eq!((20, 1, 60, 29), (l.area.x, l.area.y, l.area.width, l.area.height));
    let l = layout(60, Some((101, 30)));
    assert_eq!((61, 20), (l.width, l.area.x));
    let l = layout(60, Some((40, 24)));
    assert_eq!((40, 0, 23), (l.width, l.area.x, l.area.height));
    let l = layout(0, Some((80, 24)));
    assert_eq!((80, 0), (l.width, l.area.x));
}

#[test]
fn layout_without_a_terminal_is_sixty_by_twenty_five() {
    let l = layout(55, None);
    assert_eq!((60, 25), (l.width, l.height));
    assert_eq!((0, 0, 60, 25), (l.area.x, l.area.y, l.area.width, l.area.height));
}

#[test]
fn text_style_reads_the_bits() {
    assert_eq!(PLAIN, text_style(0));
    assert_eq!(PLAIN, text_style(8));
    assert_eq!(BAR, text_style(1));
    assert_eq!(TextStyle { reverse: false, bold: true, italic: false, tint: Tint::Red }, text_style(2));
    assert_eq!(TextStyle { reverse: false, bold: false, italic: true, tint: Tint::Plain }, text_style(4));
    assert_eq!(TextStyle { reverse: true, bold: true, italic: true, tint: Tint::Red }, text_style(15));
    assert_eq!(PLAIN, TextStyle::default());
}

#[test]
fn the_cursor_counts_from_one_and_keeps_what_is_zero() {
    let cursor = Point { x: 5, y: 3 };
    let at = set_cursor_at(cursor, 20, 7, 2);
    assert_eq!((6, 1), (at.x, at.y));
    let at = set_cursor_at(cursor, 20, 0, 0);
    assert_eq!((5, 3), (at.x, at.y));
    let at = set_cursor_at(cursor, 20, 21, 1);
    assert_eq!((1, 0), (at.x, at.y));
    let at = set_cursor_at(cursor, 20, -4, 1);
    assert_eq!((1, 0), (at.x, at.y));
    let at = set_cursor_at(cursor, 20, 7, -1);
    assert_eq!((5, 3), (at.x, at.y));
}

#[test]
fn input_is_trimmed_and_rid_of_control_sequences() {
    let clean = |line: &str| clean_input(line).expect("the pattern of control sequences");
    assert_eq!("hello", clean("  \u{1b}[31mhello\u{1b}[0m  \n"));
    assert_eq!("go  north", clean("go  north\r\n"));
    assert_eq!("x", clean("\u{1b}[2K   x"));
    assert_eq!("", clean("   "));
    assert_eq!("a\u{1b}b", clean("\u{a0}a\u{1b}b\u{3000}"));
}

#[test]
fn the_status_text_fills_the_bar() {
    assert_eq!(" West of House      ", status_text("West of House", 20));
    assert_eq!(" West", status_text("West", 3));
    assert_eq!(" \u{e9}t\u{e9}  ", status_text("\u{e9}t\u{e9}", 6));
}

#[test]
fn numbers_are_written_in_decimal() {
    assert_eq!("0", decimal(0));
    assert_eq!("7", decimal(7));
    assert_eq!("12345", decimal(12345));
    assert_eq!("-9", decimal(-9));
    assert_eq!("32767", decimal(i16::MAX));
    assert_eq!("-32768", decimal(i16::MIN));
}

#[test]
fn a_terminal_front_end_sets_the_scroll_region() {
    let mut ui = TerminalUI::new_with_width(20, Some((30, 10)), true);
    assert!(ui.is_term());
    assert_eq!((20, 10), (ui.width, ui.height));
    assert_eq!(9, ui.buffer.termbuf.area.height);
    assert_eq!(5, ui.buffer.termbuf.area.x);
    assert_eq!(1, ui.window.buffer.area.height);
    assert_eq!(vec![Command::SetScrollRegion { top: 2, bottom: 10 }], ui.take_commands());
    let mut ui = TerminalUI::new_with_width(20, None, true);
    assert!(!ui.is_term());
    assert!(ui.take_commands().is_empty());
}

#[test]
fn text_goes_out_raw_without_a_terminal() {
    let mut ui = TerminalUI::new_with_width(20, None, false);
    assert!(ui.can_print("hello"));
    ui.print("hello");
    assert_eq!(vec![Command::Raw { text: "hello".to_string() }], ui.take_commands());
    assert!(ui.buffer.lines.is_empty());
}

#[test]
fn text_goes_to_the_lower_window() {
    let mut ui = terminal();
    ui.set_text_style(2);
    assert!(ui.can_print("hello"));
    ui.print("hello");
    assert_eq!(
        vec![Command::MoveTo { x: 5, y: 9 }, print("hello", text_style(2)), Command::Flush],
        ui.take_commands()
    );
    assert_eq!(1, ui.buffer.lines.len());
    assert!(ui.buffer.termbuf.out.is_empty());
}

#[test]
fn text_goes_to_the_upper_window_at_the_cursor() {
    let mut ui = terminal();
    ui.set_window(1);
    ui.set_cursor(3, 1);
    ui.print("hello");
    assert_eq!(
        vec![Command::MoveTo { x: 7, y: 0 }, print("hello", PLAIN), Command::Flush],
        ui.take_commands()
    );
    assert_eq!((8, 1), ui.get_cursor());
    assert_eq!("  hello", ui.window.buffer.rows[0].text);
    ui.print("a long way to the end");
    assert_eq!(19, ui.window.cursor.x);
    assert!(ui.buffer.lines.is_empty());
}

#[test]
fn debug_prints_below_and_keeps_the_window() {
    let mut ui = terminal();
    ui.set_window(1);
    ui.debug("note");
    assert_eq!(1, ui.zwindow);
    assert_eq!(1, ui.buffer.lines.len());
    assert!(ui.window.buffer.rows.is_empty());
}

#[test]
fn objects_are_printed_in_their_style() {
    let mut ui = terminal();
    ui.print_object("lamp");
    let commands = ui.take_commands();
    assert_eq!(
        print("lamp", TextStyle { reverse: false, bold: false, italic: true, tint: Tint::White }),
        commands[1]
    );
    ui.set_window(1);
    ui.print_object("lamp");
    assert_eq!(print("lamp", PLAIN), ui.take_commands()[1]);
}

#[test]
fn split_window_moves_both_windows() {
    let mut ui = terminal();
    ui.split_window(3);
    assert_eq!(3, ui.window.buffer.area.height);
    let lower = ui.buffer.termbuf.area;
    assert_eq!((5, 3, 20, 7), (lower.x, lower.y, lower.width, lower.height));
    assert_eq!(vec![Command::SetScrollRegion { top: 4, bottom: 10 }], ui.take_commands());
    let mut ui = TerminalUI::new_with_width(20, None, false);
    ui.split_window(3);
    assert_eq!(1, ui.window.buffer.area.height);
    assert!(ui.take_commands().is_empty());
}

#[test]
fn erase_window_clears_what_it_is_asked_to() {
    let mut ui = terminal();
    ui.print("below");
    ui.set_window(1);
    ui.print("above");
    ui.take_commands();
    ui.erase_window(1);
    assert!(ui.window.buffer.rows.is_empty());
    assert!(!ui.buffer.termbuf.rows.is_empty());
    ui.erase_window(0);
    assert!(ui.buffer.termbuf.rows.is_empty());
    assert!(ui.buffer.lines.is_empty());
    assert!(ui.take_commands().is_empty());
    ui.print("above");
    ui.erase_window(-2);
    assert!(ui.window.buffer.rows.is_empty());
}

#[test]
fn erasing_the_screen_closes_the_upper_window() {
    let mut ui = terminal();
    ui.split_window(3);
    ui.take_commands();
    ui.erase_window(-1);
    assert_eq!(0, ui.window.buffer.area.height);
    assert_eq!(10, ui.buffer.termbuf.area.height);
    assert_eq!(
        vec![
            Command::SetScrollRegion { top: 1, bottom: 10 },
            Command::ClearScreen,
            Command::SetScrollRegion { top: 1, bottom: 10 },
        ],
        ui.take_commands()
    );
}

#[test]
fn erasing_an_unknown_window_prints_a_note() {
    let mut ui = terminal();
    ui.erase_window(-7);
    assert_eq!("erase_window unknown window: -7\n", ui.buffer.lines[0].text);
}

#[test]
fn the_status_bar_is_written_in_reverse() {
    let mut ui = terminal();
    assert!(ui.set_status_bar("West of House", "0/1"));
    assert_eq!(" West of House  0/1 ", ui.window.buffer.rows[0].text);
    assert_eq!(
        vec![
            Command::MoveTo { x: 5, y: 0 },
            print(" West of House      ", BAR),
            Command::Flush,
            Command::MoveTo { x: 21, y: 0 },
            print("0/1", BAR),
            Command::Flush,
        ],
        ui.take_commands()
    );
    assert!(!ui.set_status_bar("West", "a text as wide as the bar"));
    assert!(ui.take_commands().is_empty());
    let mut plain = TerminalUI::new_with_width(20, None, false);
    assert!(plain.set_status_bar("West", "0/1"));
    assert!(plain.window.buffer.rows.is_empty());
}

#[test]
fn input_is_echoed_below() {
    let mut ui = terminal();
    ui.print("> ");
    ui.take_commands();
    ui.buffer.more_lines = 3;
    ui.begin_input();
    assert_eq!(0, ui.buffer.more_lines);
    ui.echo_input("look");
    let commands = ui.take_commands();
    assert!(matches!(commands[0], Command::ScrollDown { fallback: Some(_) }));
    assert_eq!("> look\n\n", ui.buffer.lines[0].text);
    let mut plain = TerminalUI::new_with_width(20, None, false);
    plain.echo_input("look");
    assert!(plain.take_commands().is_empty());
}

#[test]
fn clear_queues_nothing_without_a_terminal() {
    let mut ui = TerminalUI::new_with_width(20, None, false);
    ui.clear();
    assert!(ui.take_commands().is_empty());
    let mut ui = terminal();
    ui.clear();
    assert_eq!(
        vec![Command::ClearScreen, Command::SetScrollRegion { top: 2, bottom: 10 }],
        ui.take_commands()
    );
}

#[test]
fn lines_are_cut_at_line_endings() {
    assert_eq!(Vec::<&str>::new(), lines(""));
    assert_eq!(vec!["a", "b"], lines("a\nb"));
    assert_eq!(vec!["a", "b"], lines("a\r\nb\n"));
    assert_eq!(vec!["", "", "x\r"], lines("\n\nx\r"));
    assert_eq!(vec!["a\rb", ""], lines("a\rb\n\r\n"));
    let text = "one\ntwo\r\n\nthr\u{e9}e\n";
    assert_eq!(text.lines().collect::<Vec<_>>(), lines(text));
}

#[test]
fn printing_to_the_page_makes_tokens() {
    let mut ui = WebUI::new();
    ui.print("");
    assert!(ui.buffer.is_empty());
    ui.print("\n");
    ui.print("West of House");
    ui.print("a\nb\n");
    ui.print("\nc");
    ui.print("d\r\n\r\ne");
    let text = |s: &str| Token::Text(s.to_string());
    assert_eq!(
        vec![
            Token::Newline,
            text("West of House"),
            text("a"),
            Token::Newline,
            text("b"),
            Token::Newline,
            Token::Newline,
            text("c"),
            text("d"),
            Token::Newline,
            Token::Newline,
            text("e"),
        ],
        ui.buffer
    );
}

#[test]
fn flushing_gives_the_page_as_html() {
    let mut ui = WebUI::new();
    assert_eq!(None, ui.flush());
    ui.print_object("West of House");
    ui.print("\n");
    ui.print("You are ");
    ui.print("here with a ");
    ui.print_object("lamp");
    ui.print(".\n");
    ui.print_object("Kitchen");
    ui.print("\n");
    ui.debug("step 3");
    assert_eq!(
        Some(
            "<span class=\"room\">West of House</span><br>\
             <span>You are here with a </span><span class=\"object\">lamp</span><span>.</span><br>\
             <span class=\"room\">Kitchen</span><br><span class=\"debug\">step 3</span>"
                .to_string()
        ),
        ui.flush()
    );
    assert!(ui.buffer.is_empty());
    assert_eq!(None, ui.flush());
}

#[test]
fn erasing_the_page_flushes_it() {
    let mut ui = WebUI::new();
    ui.print("old");
    assert_eq!(None, ui.erase_window(1));
    assert_eq!(1, ui.buffer.len());
    assert_eq!(
        Some("<span>old</span><div height=\"100%\"></div>".to_string()),
        ui.erase_window(0)
    );
    assert_eq!(Some("<div height=\"100%\"></div>".to_string()), ui.erase_window(-1));
    assert!(ui.buffer.is_empty());
}

#[test]
fn the_status_message_is_a_json_pair() {
    assert_eq!(Some("[\"West of House\",\"0/1\"]".to_string()), status_message("West of House", "0/1"));
    assert_eq!(Some("[\"a \\\"b\\\"\",\"\"]".to_string()), status_message("a \"b\"", ""));
}

#[test]
fn a_region_is_as_it_is_made() {
    let area = Rect { x: 1, y: 2, width: 3, height: 4 };
    let copy = area;
    assert_eq!((1, 2, 3, 4), (copy.x, copy.y, copy.width, copy.height));
}

#[test]
fn the_front_end_says_what_it_can_do() {
    let mut ui = terminal();
    assert!(ui.can_clear_now());
    assert!(ui.has_cursor_now());
    assert!(ui.can_split_now(10));
    assert!(!ui.can_split_now(11));
    assert!(ui.can_erase_now(-1));
    assert!(ui.can_erase_now(5));
    ui.buffer.termbuf.first_row = u32::MAX - 5;
    assert!(!ui.can_erase_now(5));
    assert!(ui.can_erase_now(0));
    assert!(ui.can_split_now(10));
    assert!(!ui.can_split_now(3));
    ui.window.cursor.x = u16::MAX;
    assert!(!ui.has_cursor_now());
    ui.window.buffer.area.height = u16::MAX;
    assert!(!ui.can_clear_now());
    let plain = TerminalUI::new_with_width(20, None, false);
    assert!(plain.can_split_now(99) && plain.can_erase_now(7) && plain.can_clear_now());
}
