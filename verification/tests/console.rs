use kernel::output::{decimal_digits, hex_digits, StaticData, BACKGROUND, SCANCODE_MAP, TEXT_COLOUR};

const WIDTH: usize = 27;
const HEIGHT: usize = 32;
const PITCH: usize = 30;

/// A font whose glyph for byte `c` has column `x` made of the bytes `c`
/// (rows 0..8) and `x` (rows 8..16).
fn font() -> Vec<u8> {
    let mut f = vec![0u8; 256 * 18];
    for c in 0..256 {
        for x in 0..9 {
            f[c * 18 + 2 * x] = c as u8;
            f[c * 18 + 2 * x + 1] = x as u8;
        }
    }
    f
}

fn console() -> (StaticData, Vec<u32>) {
    let c = StaticData::new(PITCH * HEIGHT * 4, WIDTH, HEIGHT, PITCH, 1);
    (c, vec![0u32; PITCH * HEIGHT])
}

/// The pixel colour expected at (`cx`, `cy`) of the glyph of byte `c`.
fn expected(c: u8, cx: usize, cy: usize, colour: u32) -> u32 {
    let bits = (c as u16) | ((cx as u16) << 8);
    if (bits >> cy) & 1 == 1 { colour } else { BACKGROUND }
}

/// Whether cell (`x`, `y`) of `fb` shows the glyph of `c`.
fn shows(fb: &[u32], x: usize, y: usize, c: u8) -> bool {
    (0..9).all(|cx| (0..16).all(|cy| fb[(16 * y + cy) * PITCH + 9 * x + cx] == expected(c, cx, cy, TEXT_COLOUR)))
}

#[test]
fn geometry() {
    let (c, _) = console();
    assert_eq!(c.char_w, 3);
    assert_eq!(c.char_h, 2);
    assert_eq!(c.cursor, 0);
    assert_eq!(c.shift, 0);
    assert_eq!(c.format, 1);
}

#[test]
fn clear_paints_the_grid_only() {
    let (c, mut fb) = console();
    c.clear(&mut fb);
    for y in 0..HEIGHT {
        for x in 0..PITCH {
            let want = if x < 27 { BACKGROUND } else { 0 };
            assert_eq!(fb[y * PITCH + x], want);
        }
    }
}

#[test]
fn glyph_pixels() {
    let (c, mut fb) = console();
    let f = font();
    assert!(c.print_char(&mut fb, &f[0x41 * 18..], 1, 1, 0x00FF_0000));
    for cx in 0..9 {
        for cy in 0..16 {
            assert_eq!(fb[(16 + cy) * PITCH + 9 + cx], expected(0x41, cx, cy, 0x00FF_0000));
        }
    }
    assert_eq!(fb[16 * PITCH + 8], 0);
    assert_eq!(fb[16 * PITCH + 18], 0);
}

#[test]
fn glyph_outside_both_ways_is_refused() {
    let (c, mut fb) = console();
    let f = font();
    assert!(!c.print_char(&mut fb, &f[0..], 3, 2, TEXT_COLOUR));
    assert!(fb.iter().all(|&p| p == 0));
    // Outside in one direction only: drawn, and clipped at the buffer.
    assert!(c.print_char(&mut fb, &f[0..], 3, 1, TEXT_COLOUR));
    assert_eq!(fb[16 * PITCH + 27], BACKGROUND);
}

#[test]
fn scrolling_moves_lines_up() {
    let (c, mut fb) = console();
    for (i, p) in fb.iter_mut().enumerate() {
        *p = i as u32;
    }
    c.shift_up(&mut fb);
    for y in 0..16 {
        for x in 0..27 {
            assert_eq!(fb[y * PITCH + x], ((y + 16) * PITCH + x) as u32);
        }
        for x in 27..30 {
            assert_eq!(fb[y * PITCH + x], (y * PITCH + x) as u32);
        }
    }
    for y in 16..32 {
        for x in 0..27 {
            assert_eq!(fb[y * PITCH + x], BACKGROUND);
        }
    }
}

#[test]
fn printing_wraps_and_scrolls() {
    let (mut c, mut fb) = console();
    let f = font();
    c.raw_print(&mut fb, &f, b"abc");
    assert_eq!(c.cursor, 3);
    assert!(shows(&fb, 0, 1, b'a'));
    assert!(shows(&fb, 2, 1, b'c'));
    c.raw_print(&mut fb, &f, b"d");
    assert_eq!(c.cursor, 1);
    assert!(shows(&fb, 0, 0, b'a'));
    assert!(shows(&fb, 1, 0, b'b'));
    assert!(shows(&fb, 2, 0, b'c'));
    assert!(shows(&fb, 0, 1, b'd'));
    assert_eq!(fb[(16 + 3) * PITCH + 9 + 4], BACKGROUND);
}

#[test]
fn println_starts_a_new_line() {
    let (mut c, mut fb) = console();
    let f = font();
    c.raw_println(&mut fb, &f, b"hi");
    assert_eq!(c.cursor, 0);
    assert!(shows(&fb, 0, 0, b'h'));
    assert!(shows(&fb, 1, 0, b'i'));
    assert_eq!(fb[16 * PITCH], BACKGROUND);
}

#[test]
fn numbers() {
    assert_eq!(decimal_digits(0), b"0".to_vec());
    assert_eq!(decimal_digits(7), b"7".to_vec());
    assert_eq!(decimal_digits(-120), b"-120".to_vec());
    assert_eq!(decimal_digits(1234567890), b"1234567890".to_vec());
    assert_eq!(decimal_digits(i128::MAX), i128::MAX.to_string().into_bytes());
    assert_eq!(decimal_digits(-i128::MAX), (-i128::MAX).to_string().into_bytes());
    assert_eq!(hex_digits(0xAB, 1), b"AB".to_vec());
    assert_eq!(hex_digits(0x1234, 4), b"00001234".to_vec());
    assert_eq!(hex_digits(u64::MAX, 8), b"FFFFFFFFFFFFFFFF".to_vec());
    // Only the low bytes count.
    assert_eq!(hex_digits(0x1_2345, 2), b"2345".to_vec());
    assert_eq!(hex_digits((-2i16) as u16 as u64, 2), b"FFFE".to_vec());
}

#[test]
fn printing_numbers() {
    let (mut c, mut fb) = console();
    let f = font();
    c.print_num(&mut fb, &f, -5);
    assert_eq!(c.cursor, 2);
    assert!(shows(&fb, 0, 1, b'-'));
    assert!(shows(&fb, 1, 1, b'5'));
    c.print_hex(&mut fb, &f, 0x2F, 1);
    assert_eq!(c.cursor, 1);
    assert!(shows(&fb, 2, 0, b'2'));
    assert!(shows(&fb, 0, 1, b'F'));
}

#[test]
fn keys_type_characters() {
    let (mut c, mut fb) = console();
    let f = font();
    c.input_scancode(&mut fb, &f, 0x1E);
    assert_eq!(c.cursor, 1);
    assert!(shows(&fb, 0, 1, b'a'));
    // Left shift held: upper case.
    c.input_scancode(&mut fb, &f, 0x2A);
    assert_eq!(c.shift, 0x80);
    c.input_scancode(&mut fb, &f, 0x1E);
    assert!(shows(&fb, 1, 1, b'A'));
    assert_eq!(c.cursor, 2);
    c.input_scancode(&mut fb, &f, 0xAA);
    assert_eq!(c.shift, 0);
    // Backspace blanks the cell before the cursor.
    c.input_scancode(&mut fb, &f, 0x0E);
    assert_eq!(c.cursor, 1);
    assert!(shows(&fb, 1, 1, b' '));
    // Enter scrolls.
    c.input_scancode(&mut fb, &f, 0x1C);
    assert_eq!(c.cursor, 0);
    assert!(shows(&fb, 0, 0, b'a'));
}

#[test]
fn typing_to_the_end_of_the_line_scrolls() {
    let (mut c, mut fb) = console();
    let f = font();
    for code in [0x10u8, 0x11, 0x12] {
        c.input_scancode(&mut fb, &f, code);
    }
    assert_eq!(c.cursor, 0);
    assert!(shows(&fb, 0, 0, b'q'));
    assert!(shows(&fb, 2, 0, b'e'));
}

#[test]
fn keys_without_characters() {
    let (mut c, mut fb) = console();
    let f = font();
    // Backspace at the start of the line, a release, an unmapped key.
    c.input_scancode(&mut fb, &f, 0x0E);
    c.input_scancode(&mut fb, &f, 0x9E);
    c.input_scancode(&mut fb, &f, 0x01);
    assert_eq!(c.cursor, 0);
    assert!(fb.iter().all(|&p| p == 0));
    // Shift with backspace maps to nothing.
    c.input_scancode(&mut fb, &f, 0x2A);
    c.input_scancode(&mut fb, &f, 0x0E);
    assert_eq!(c.cursor, 0);
}

#[test]
fn scancode_table() {
    assert_eq!(SCANCODE_MAP[0x02], b'1');
    assert_eq!(SCANCODE_MAP[0x1E], b'a');
    assert_eq!(SCANCODE_MAP[0x39], b' ');
    assert_eq!(SCANCODE_MAP[0x56], b'\\');
    assert_eq!(SCANCODE_MAP[0x82], b'!');
    assert_eq!(SCANCODE_MAP[0x9E], b'A');
    assert_eq!(SCANCODE_MAP[0xA8], b'@');
    assert_eq!(SCANCODE_MAP[0xD6], b'|');
    assert_eq!(SCANCODE_MAP[0x2A], 0);
}
