use controller_link::ssd1306::{DisplayDriver, BUFFER_SIZE, DEFAULT_ADDRESS};
use controller_link::ssd1306_error::Error;

fn driver() -> DisplayDriver {
    DisplayDriver::new(None, vec![0; BUFFER_SIZE], Vec::new())
}

fn is_set(d: &DisplayDriver, x: usize, y: usize) -> bool {
    d.buffer()[8 * x + y / 8] & (1 << (y % 8)) != 0
}

fn set_count(d: &DisplayDriver) -> u32 {
    d.buffer().iter().map(|b| b.count_ones()).sum()
}

fn outside(r: Result<(), Error<()>>) -> (i16, i16) {
    match r {
        Err(Error::OutsideScreenAccess { x, y }) => (x, y),
        _ => panic!("expected an out-of-screen error"),
    }
}

/// A glyph table for codes 0..=255 where code `c` has column bytes
/// `c, 0, 0, 0, 0`.
fn numbered_font() -> Vec<u8> {
    let mut font = Vec::new();
    for c in 0..=255u8 {
        font.extend([c, 0, 0, 0, 0]);
    }
    font
}

#[test]
fn new_uses_default_or_given_address() {
    assert_eq!(driver().address(), DEFAULT_ADDRESS);
    let d = DisplayDriver::new(Some(0x3D), vec![0; BUFFER_SIZE], Vec::new());
    assert_eq!(d.address(), 0x3D);
    assert_eq!(d.cursor_position(), (0, 0));
}

#[test]
fn init_sequence_bytes() {
    let cmds = driver().init_sequence();
    assert_eq!(cmds.len(), 8);
    assert_eq!(cmds[0], vec![0x00, 0xAE, 0xD5, 0x80, 0xA8, 63]);
    assert_eq!(cmds[1], vec![0x00, 0xD3, 0x00, 0x40, 0x8D]);
    assert_eq!(cmds[2], vec![0x00, 0x14]);
    assert_eq!(cmds[6], vec![0x00, 0xD9, 0xF1]);
    assert_eq!(cmds[7], vec![0x00, 0xDB, 0x40, 0xA4, 0xA6, 0x2E, 0xAF]);
}

#[test]
fn command_writes() {
    let d = driver();
    assert_eq!(d.start_of_data(), vec![0x00, 0x21, 0x00, 127, 0x22, 0x00, 7]);
    assert_eq!(d.invert_display(true), vec![0x00, 0xA7]);
    assert_eq!(d.invert_display(false), vec![0x00, 0xA6]);
    assert_eq!(d.dim(true), vec![0x00, 0x81, 0x00]);
    assert_eq!(d.dim(false), vec![0x00, 0x81, 0x8F]);
}

#[test]
fn draw_pixel_sets_one_bit() {
    let mut d = driver();
    d.draw_pixel::<()>(3, 10, 1).unwrap();
    assert_eq!(d.buffer()[8 * 3 + 1], 1 << 2);
    assert_eq!(set_count(&d), 1);
}

#[test]
fn draw_pixel_off_screen_is_reported() {
    let mut d = driver();
    assert_eq!(outside(d.draw_pixel(129, 0, 1)), (129, 0));
    assert_eq!(outside(d.draw_pixel(0, 65, 1)), (0, 65));
    assert_eq!(outside(d.draw_pixel(128, 0, 1)), (128, 0));
    assert_eq!(set_count(&d), 0);
}

#[test]
fn fill_and_clear() {
    let mut d = driver();
    d.fill_screen(1);
    assert!(d.buffer().iter().all(|&b| b == 0xFF));
    d.clear_display();
    assert!(d.buffer().iter().all(|&b| b == 0x00));
    d.fill_screen_byte(0x5A);
    assert!(d.buffer().iter().all(|&b| b == 0x5A));
}

#[test]
fn display_chunks_cover_the_buffer() {
    let mut d = driver();
    d.fill_screen_byte(0x11);
    let chunks = d.display();
    assert_eq!(chunks.len(), 32);
    assert!(chunks.iter().all(|c| c.len() == 32));
    let partial = d.display_num(70);
    assert_eq!(partial.iter().map(|c| c.len()).collect::<Vec<_>>(), vec![32, 32, 6]);
    assert_eq!(d.display_num(0).len(), 0);
}

#[test]
fn draw_line_diagonal() {
    let mut d = driver();
    d.draw_line::<()>(0, 0, 4, 4, 1).unwrap();
    for i in 0..5 {
        assert!(is_set(&d, i, i));
    }
    assert_eq!(set_count(&d), 5);
}

#[test]
fn draw_line_shallow_and_reversed() {
    let mut d = driver();
    d.draw_line::<()>(6, 2, 0, 0, 1).unwrap();
    let expected = [(0, 0), (1, 0), (2, 1), (3, 1), (4, 1), (5, 2), (6, 2)];
    for (x, y) in expected {
        assert!(is_set(&d, x, y), "pixel {} {}", x, y);
    }
    assert_eq!(set_count(&d), 7);
}

#[test]
fn draw_line_steep() {
    let mut d = driver();
    d.draw_line::<()>(1, 0, 2, 5, 1).unwrap();
    assert_eq!(set_count(&d), 6);
    assert!(is_set(&d, 1, 0));
    assert!(is_set(&d, 2, 5));
}

#[test]
fn draw_line_stops_at_screen_edge() {
    let mut d = driver();
    // Column 128 passes the edge test but lies past the end of the buffer.
    assert_eq!(outside(d.draw_line(126, 0, 131, 0, 1)), (128, 0));
    assert_eq!(set_count(&d), 2);
}

#[test]
fn fast_lines() {
    let mut d = driver();
    d.draw_fast_h_line::<()>(10, 5, 3, 1).unwrap();
    assert_eq!(set_count(&d), 4);
    d.draw_fast_v_line::<()>(20, 5, 2, 1).unwrap();
    assert_eq!(set_count(&d), 7);
    assert!(is_set(&d, 20, 7));
    assert_eq!(outside(d.draw_fast_h_line(120, 5, 10, 1)), (130, 5));
    assert_eq!(outside(d.draw_fast_v_line(5, 60, 10, 1)), (5, 70));
    assert_eq!(outside(d.draw_fast_h_line(200, 5, 1, 1)), (200, 5));
    assert_eq!(set_count(&d), 7);
}

#[test]
fn fill_rect_draws_columns() {
    let mut d = driver();
    d.draw_fill_rect::<()>(2, 3, 3, 2, 1).unwrap();
    assert_eq!(set_count(&d), 9);
    assert_eq!(outside(d.draw_fill_rect(2, 60, 3, 5, 1)), (2, 65));
}

#[test]
fn draw_char_uses_code_page_437() {
    let mut d = DisplayDriver::new(None, vec![0; BUFFER_SIZE], numbered_font());
    // 'Ç' is code 0x80 in code page 437; its first column is 0x80 here.
    d.draw_char_at(0, 0, 'Ç', 1);
    assert_eq!(d.buffer()[0], 0x80);
    d.draw_char_at(10, 0, 'A', 1);
    assert_eq!(d.buffer()[80], 0x41);
}

#[test]
fn draw_char_at_needs_room() {
    let mut d = DisplayDriver::new(None, vec![0; BUFFER_SIZE], numbered_font());
    d.draw_char_at(123, 0, 'A', 1);
    d.draw_char_at(0, 56, 'A', 1);
    assert_eq!(set_count(&d), 0);
}

#[test]
fn draw_string_moves_cursor() {
    let mut d = DisplayDriver::new(None, vec![0; BUFFER_SIZE], numbered_font());
    d.draw_string("ab\r\nc");
    assert_eq!(d.cursor_position(), (6, 9));
    assert_eq!(d.buffer()[0], b'a');
    assert_eq!(d.buffer()[8 * 6], b'b');
    d.set_cursor(120, 0);
    d.draw_char('d');
    assert_eq!(d.cursor_position(), (126, 0));
    d.draw_char('e');
    assert_eq!(d.cursor_position(), (6, 9));
}

#[test]
fn off_screen_starts_need_no_sum() {
    let mut d = driver();
    assert_eq!(outside(d.draw_fast_h_line(200, 5, u16::MAX, 1)), (200, 5));
    assert_eq!(outside(d.draw_fast_v_line(5, 100, u16::MAX, 1)), (5, 100));
    d.draw_fill_rect::<()>(0, u16::MAX, 0, 10, 1).unwrap();
    assert_eq!(set_count(&d), 0);
}

#[test]
fn fill_rect_past_right_edge_keeps_drawn_columns() {
    let mut d = driver();
    assert_eq!(outside(d.draw_fill_rect(126, 0, 5, 2, 1)), (128, 0));
    assert_eq!(set_count(&d), 6);
    assert!(is_set(&d, 127, 2));
}

#[test]
fn glyph_sets_exactly_its_bits() {
    let mut font = vec![0u8; 256 * 5];
    font[65 * 5] = 0b1000_0001;
    font[65 * 5 + 4] = 0b0000_0010;
    let mut d = DisplayDriver::new(None, vec![0; BUFFER_SIZE], font);
    d.draw_char_at(10, 3, 'A', 1);
    assert_eq!(set_count(&d), 3);
    assert!(is_set(&d, 10, 3));
    assert!(is_set(&d, 10, 10));
    assert!(is_set(&d, 14, 4));
}
