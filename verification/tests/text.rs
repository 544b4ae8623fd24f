use chronoscope::text::{
    blank, chars_of, clip, concat_text, contains_text, decimal_text, hex_dump_text, push_hex,
    push_padded, same_bytes, same_text, utf16_text, utf16_units, utf16le_text,
};

#[test]
fn texts_are_told_apart() {
    assert!(same_text("Data", "Data"));
    assert!(!same_text("Data", "data"));
    assert!(!same_text("Data", "Dat"));
    assert!(same_text("", ""));
    assert!(same_bytes(&[1, 2], &[1, 2]));
    assert!(!same_bytes(&[1, 2], &[1, 3]));
    assert!(!same_bytes(&[1], &[1, 2]));
    assert_eq!(chars_of("aé😀"), vec!['a', 'é', '😀']);
}

#[test]
fn numbers_are_written_out() {
    assert_eq!(decimal_text(0), "0");
    assert_eq!(decimal_text(4624), "4624");
    assert_eq!(decimal_text(u64::MAX), "18446744073709551615");
    let mut s = String::from("x");
    push_padded(&mut s, 7, 2);
    push_padded(&mut s, 2024, 4);
    push_padded(&mut s, 12345, 4);
    assert_eq!(s, "x07202412345");
    let mut s = String::new();
    push_hex(&mut s, 0xDEAD_BEEF, 8, true);
    push_hex(&mut s, 0xDEAD_BEEF, 8, false);
    push_hex(&mut s, 0x1FF, 2, false);
    assert_eq!(s, "DEADBEEFdeadbeefff");
    assert_eq!(hex_dump_text(&[0, 0xA0, 0xFF]), "00a0ff");
    assert_eq!(hex_dump_text(&[]), "");
}

#[test]
fn texts_are_joined_and_cut() {
    assert_eq!(concat_text(&vec!["a", "", "bc"]), "abc");
    assert_eq!(concat_text(&vec![]), "");
    assert_eq!(clip("äöü", 2), "äö");
    assert_eq!(clip("äöü", 3), "äöü");
    assert_eq!(clip("äöü", 0), "");
}

#[test]
fn text_is_searched() {
    assert!(contains_text("Microsoft-Windows-Sysmon", "Sysmon"));
    assert!(!contains_text("Microsoft-Windows-SysMon", "Sysmon"));
    assert!(contains_text("aab", "ab"));
    assert!(contains_text("a", ""));
    assert!(!contains_text("", "a"));
}

#[test]
fn white_space_is_blank() {
    assert!(blank(""));
    assert!(blank(" \t\r\n\u{A0}\u{2003}\u{3000}"));
    assert!(!blank(" x "));
    assert!(!blank("\u{200B}"));
    for c in (0..=0x10FFFFu32).filter_map(char::from_u32) {
        assert_eq!(blank(&c.to_string()), c.is_whitespace());
    }
}

#[test]
fn utf16_is_decoded() {
    assert_eq!(utf16_units(&[0x41, 0, 0x34, 0x12, 0xFF]), vec![0x41, 0x1234]);
    assert_eq!(utf16le_text(&[0x41, 0, 0x3D, 0xD8, 0x00, 0xDE]), "A😀");
    assert_eq!(utf16_text(&[]), "");
}

#[test]
fn unpaired_surrogates_are_replaced() {
    let cases: [&[u16]; 6] = [
        &[0xD800],
        &[0xDC00],
        &[0xD800, 0x41],
        &[0xDC00, 0xD800],
        &[0xD800, 0xD800, 0xDC00],
        &[0xD83D, 0xDE00, 0xDE00, 0xDBFF, 0xDFFF],
    ];
    for units in cases {
        assert_eq!(utf16_text(units), String::from_utf16_lossy(units));
    }
}

#[test]
fn utf16_reads_back() {
    for s in ["", "abc", "aé€😀z", "\u{D7FF}\u{E000}\u{FFFF}\u{10000}\u{10FFFF}"] {
        let units: Vec<u16> = s.encode_utf16().collect();
        assert_eq!(utf16_text(&units), s);
        let bytes: Vec<u8> = units.iter().flat_map(|u| u.to_le_bytes()).collect();
        assert_eq!(utf16le_text(&bytes), s);
    }
}
