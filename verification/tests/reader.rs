use chronoscope::artifacts::reader::{Cursor, Reader};

#[test]
fn numbers_are_little_endian() {
    let data = [1u8, 2, 3, 4, 5, 6, 7, 8, 9];
    let r = Reader::new(&data);
    assert_eq!(r.u16(0), Some(0x0201));
    assert_eq!(r.u32(1), Some(0x0504_0302));
    assert_eq!(r.u64(1), Some(0x0908_0706_0504_0302));
}

#[test]
fn reads_stop_at_the_end() {
    let data = [0xFFu8; 8];
    let r = Reader::new(&data);
    assert_eq!(r.u16(6), Some(0xFFFF));
    assert_eq!(r.u16(7), None);
    assert_eq!(r.u32(4), Some(u32::MAX));
    assert_eq!(r.u32(5), None);
    assert_eq!(r.u64(0), Some(u64::MAX));
    assert_eq!(r.u64(1), None);
    assert_eq!(r.u16(usize::MAX), None);
    assert_eq!(r.u32(usize::MAX), None);
    assert_eq!(r.u64(usize::MAX - 3), None);
}

#[test]
fn slices_lie_in_the_buffer() {
    let data = [1u8, 2, 3];
    let r = Reader::new(&data);
    assert_eq!(r.slice(1, 2), Some(&data[1..3]));
    assert_eq!(r.slice(3, 0), Some(&data[3..3]));
    assert_eq!(r.slice(4, 0), None);
    assert_eq!(r.slice(2, 2), None);
    assert_eq!(r.slice(1, usize::MAX), None);
}

#[test]
fn text_ends_at_a_zero() {
    let data = b"abc\0def";
    let r = Reader::new(data);
    assert_eq!(r.cstr(0, 100).as_deref(), Some("abc"));
    assert_eq!(r.cstr(0, 2).as_deref(), Some("ab"));
    assert_eq!(r.cstr(3, 100).as_deref(), Some(""));
    assert_eq!(r.cstr(4, 100).as_deref(), Some("def"));
    assert_eq!(r.cstr(7, 100).as_deref(), Some(""));
    assert_eq!(r.cstr(8, 100), None);
    assert_eq!(r.cstr(usize::MAX, usize::MAX), None);
}

#[test]
fn text_that_is_no_utf8_is_replaced() {
    let data = [b'a', 0xFF, b'b', 0];
    assert_eq!(Reader::new(&data).cstr(0, 4).as_deref(), Some("a\u{FFFD}b"));
}

#[test]
fn a_cursor_reads_front_to_back() {
    let data = [1u8, 2, 3, 4, 5, 6, 7, 8, 9, 10, 11, 12, 13, 14, 15, 16, 17];
    let mut c = Cursor::new(&data);
    assert_eq!(c.remaining(), 17);
    assert_eq!(c.peek(), Some(1));
    assert_eq!(c.u8(), Some(1));
    assert_eq!(c.u16(), Some(0x0302));
    assert_eq!(c.u32(), Some(0x0706_0504));
    assert_eq!(c.u64(), Some(0x0F0E_0D0C_0B0A_0908));
    assert_eq!(c.read(1), Some(&data[15..16]));
    assert!(c.skip(1));
    assert_eq!(c.remaining(), 0);
    assert_eq!(c.peek(), None);
    assert_eq!(c.pos, 17);
}

#[test]
fn a_failed_read_leaves_the_cursor() {
    let data = [7u8, 8];
    let mut c = Cursor::new(&data);
    assert_eq!(c.u32(), None);
    assert_eq!(c.u64(), None);
    assert_eq!(c.read(3), None);
    assert!(!c.skip(3));
    assert_eq!(c.pos, 0);
    assert_eq!(c.u16(), Some(0x0807));
    assert_eq!(c.u8(), None);
    assert_eq!(c.u16(), None);
    assert_eq!(c.read(0), Some(&data[2..2]));
    c.pos = 5;
    assert_eq!(c.remaining(), 0);
    assert!(!c.skip(0));
}
