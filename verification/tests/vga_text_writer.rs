use kermol::vga_text_writer::{TextAction, VGAWriter, TAB_SIZE};

const TEXT: u32 = 7;
const BACK: u32 = 0;

fn put(column: usize, row: usize, byte: u8) -> TextAction {
    TextAction::PutChar { column, row, text: TEXT, background: BACK, byte }
}

#[test]
fn new_writer_starts_at_the_top_left() {
    let w = VGAWriter::new(true, TEXT, BACK);
    assert_eq!(w.get_position(), (0, 0));
    assert_eq!(w.default_text, TEXT);
    assert_eq!(w.default_background, BACK);
}

#[test]
fn a_character_is_drawn_at_the_cursor() {
    let mut w = VGAWriter::new(true, TEXT, BACK);
    assert_eq!(w.write_char('a', 80, 25), vec![put(0, 0, b'a')]);
    assert_eq!(w.get_position(), (0, 1));
    assert_eq!(w.write_char('b', 80, 25), vec![put(1, 0, b'b')]);
    assert_eq!(w.get_position(), (0, 2));
}

#[test]
fn a_character_is_drawn_as_the_low_byte_of_its_code() {
    let mut w = VGAWriter::new(true, TEXT, BACK);
    assert_eq!(w.write_char('\u{141}', 80, 25), vec![put(0, 0, 0x41)]);
}

#[test]
fn newline_moves_to_the_next_row() {
    let mut w = VGAWriter::new(true, TEXT, BACK);
    w.set_position(3, 10);
    assert_eq!(w.write_char('\n', 80, 25), vec![]);
    assert_eq!(w.get_position(), (4, 0));
}

#[test]
fn the_last_column_wraps_to_the_next_row() {
    let mut w = VGAWriter::new(true, TEXT, BACK);
    w.set_position(2, 79);
    assert_eq!(w.write_char('x', 80, 25), vec![put(79, 2, b'x')]);
    assert_eq!(w.get_position(), (3, 0));
}

#[test]
fn the_last_row_scrolls() {
    let mut w = VGAWriter::new(true, TEXT, BACK);
    w.set_position(24, 0);
    assert_eq!(
        w.write_char('\n', 80, 25),
        vec![TextAction::Scroll { lines: 1, background: BACK }]
    );
    assert_eq!(w.get_position(), (24, 0));
}

#[test]
fn without_scrolling_the_last_row_goes_back_to_the_top() {
    let mut w = VGAWriter::new(false, TEXT, BACK);
    w.set_position(24, 79);
    assert_eq!(w.write_char('z', 80, 25), vec![put(79, 24, b'z')]);
    assert_eq!(w.get_position(), (0, 0));
}

#[test]
fn a_tab_writes_spaces() {
    let mut w = VGAWriter::new(true, TEXT, BACK);
    let actions = w.write_char('\t', 80, 25);
    assert_eq!(actions.len(), TAB_SIZE);
    assert_eq!(actions, vec![put(0, 0, b' '), put(1, 0, b' '), put(2, 0, b' '), put(3, 0, b' ')]);
    assert_eq!(w.get_position(), (0, 4));
}

#[test]
fn a_tab_wraps_at_the_end_of_a_row() {
    let mut w = VGAWriter::new(true, TEXT, BACK);
    w.set_position(0, 6);
    let actions = w.write_char('\t', 8, 4);
    assert_eq!(actions, vec![put(6, 0, b' '), put(7, 0, b' '), put(0, 1, b' '), put(1, 1, b' ')]);
    assert_eq!(w.get_position(), (1, 2));
}

#[test]
fn write_string_writes_each_character() {
    let mut w = VGAWriter::new(true, TEXT, BACK);
    let actions = w.write_string("hi\nA", 80, 25);
    assert_eq!(actions, vec![put(0, 0, b'h'), put(1, 0, b'i'), put(0, 1, b'A')]);
    assert_eq!(w.get_position(), (1, 1));
}

#[test]
fn writing_in_two_parts_is_writing_the_whole() {
    let mut one = VGAWriter::new(true, TEXT, BACK);
    let mut two = VGAWriter::new(true, TEXT, BACK);
    let whole = one.write_string("abc\tdef\nxyz", 6, 3);
    let mut parts = two.write_string("abc\td", 6, 3);
    parts.extend(two.write_string("ef\nxyz", 6, 3));
    assert_eq!(whole, parts);
    assert_eq!(one.get_position(), two.get_position());
}

#[test]
fn colors_can_be_changed() {
    let mut w = VGAWriter::new(true, TEXT, BACK);
    w.set_text_color(3);
    w.set_background(4);
    assert_eq!(
        w.write_char('q', 80, 25),
        vec![TextAction::PutChar { column: 0, row: 0, text: 3, background: 4, byte: b'q' }]
    );
}

#[test]
fn a_tab_draws_as_four_spaces() {
    let mut a = VGAWriter::new(false, 7, 0);
    let mut b = VGAWriter::new(false, 7, 0);
    let tab = a.write_char('\t', 80, 25);
    let spaces = b.write_string("    ", 80, 25);
    assert_eq!(tab, spaces);
    assert_eq!(a.get_position(), b.get_position());
}
