use std::path::Path;

use chronoscope::artifacts::mft::{
    MftParser, ATTR_END, ATTR_FILE_NAME, ATTR_STANDARD_INFORMATION, RECORD_SIZE,
};
use chronoscope::artifacts::{ArtifactParser, SourceFile};
use chronoscope::timeline::time::FILETIME_EPOCH_OFFSET;
use chronoscope::timeline::{ArtifactSource, TimelineEvent};

/// The source file of a path that is not on disk.
fn file(path: &str) -> SourceFile {
    let stem = Path::new(path).file_stem().and_then(|s| s.to_str());
    SourceFile { path: path.to_string(), stem: stem.map(|s| s.to_string()), modified: None }
}

fn filetime_bytes(unix_ts: i64) -> [u8; 8] {
    let ft = (unix_ts * 10_000_000 + FILETIME_EPOCH_OFFSET) as u64;
    ft.to_le_bytes()
}

/// Builds a single 1024-byte FILE record with $STANDARD_INFORMATION
/// and $FILE_NAME attributes, no update-sequence corruption (fixup
/// is a no-op — sector-tail bytes match the USN already).
fn build_mft_record(si_created: i64, fn_created: i64, name: &str) -> Vec<u8> {
    let mut rec = vec![0u8; RECORD_SIZE];
    rec[0..4].copy_from_slice(b"FILE");
    // usa_offset=42, usa_count=3 (1 USN + 2 sector entries for a 1024-byte record)
    rec[4..6].copy_from_slice(&42u16.to_le_bytes());
    rec[6..8].copy_from_slice(&3u16.to_le_bytes());
    let usn: u16 = 0x0001;
    rec[42..44].copy_from_slice(&usn.to_le_bytes());
    rec[44..46].copy_from_slice(&usn.to_le_bytes()); // sector 1 tail placeholder
    rec[46..48].copy_from_slice(&usn.to_le_bytes()); // sector 2 tail placeholder
    rec[510..512].copy_from_slice(&usn.to_le_bytes());
    rec[1022..1024].copy_from_slice(&usn.to_le_bytes());

    let attrs_offset: u16 = 56;
    rec[20..22].copy_from_slice(&attrs_offset.to_le_bytes());

    let mut off = attrs_offset as usize;

    // --- $STANDARD_INFORMATION ---
    let si_content_len: u32 = 48;
    let si_header_len: u32 = 24 + si_content_len;
    rec[off..off + 4].copy_from_slice(&ATTR_STANDARD_INFORMATION.to_le_bytes());
    rec[off + 4..off + 8].copy_from_slice(&si_header_len.to_le_bytes());
    rec[off + 8] = 0; // resident
    rec[off + 16..off + 20].copy_from_slice(&si_content_len.to_le_bytes());
    rec[off + 20..off + 22].copy_from_slice(&24u16.to_le_bytes()); // content_offset
    let content_start = off + 24;
    rec[content_start..content_start + 8].copy_from_slice(&filetime_bytes(si_created));
    rec[content_start + 8..content_start + 16].copy_from_slice(&filetime_bytes(si_created + 5));
    rec[content_start + 16..content_start + 24]
        .copy_from_slice(&filetime_bytes(si_created + 10));
    rec[content_start + 24..content_start + 32]
        .copy_from_slice(&filetime_bytes(si_created + 15));
    off += si_header_len as usize;

    // --- $FILE_NAME ---
    let name_units: Vec<u16> = name.encode_utf16().collect();
    let fn_content_len: u32 = 66 + (name_units.len() as u32) * 2;
    let fn_header_len: u32 = (24 + fn_content_len).div_ceil(8) * 8; // 8-byte aligned
    rec[off..off + 4].copy_from_slice(&ATTR_FILE_NAME.to_le_bytes());
    rec[off + 4..off + 8].copy_from_slice(&fn_header_len.to_le_bytes());
    rec[off + 8] = 0; // resident
    rec[off + 16..off + 20].copy_from_slice(&fn_content_len.to_le_bytes());
    rec[off + 20..off + 22].copy_from_slice(&24u16.to_le_bytes());
    let content_start = off + 24;
    rec[content_start..content_start + 8].copy_from_slice(&5u64.to_le_bytes()); // parent ref
    rec[content_start + 8..content_start + 16].copy_from_slice(&filetime_bytes(fn_created));
    rec[content_start + 64] = name_units.len() as u8;
    rec[content_start + 65] = 1; // Win32 namespace
    for (i, u) in name_units.iter().enumerate() {
        let p = content_start + 66 + i * 2;
        rec[p..p + 2].copy_from_slice(&u.to_le_bytes());
    }
    off += fn_header_len as usize;

    rec[off..off + 4].copy_from_slice(&ATTR_END.to_le_bytes());
    rec
}

#[test]
fn parses_macb_timestamps_and_name() {
    let base = 1_700_000_000i64;
    let raw = build_mft_record(base, base, "evil.exe");
    let parser = MftParser;
    assert!(parser.matches(&raw));
    let events = parser.parse(&raw, &file("$MFT"));
    assert_eq!(events.len(), 4);
    assert!(events
        .iter()
        .all(|e| e.target_path.as_deref() == Some("evil.exe")));
    let created = events
        .iter()
        .find(|e| e.event_type == "mft_file_created")
        .unwrap();
    assert_eq!(created.timestamp.timestamp(), base);
    assert_eq!(
        created.extra.get("timestomp_suspected"),
        None,
        "matching $SI/$FN creation times should not flag timestomping"
    );
}

#[test]
fn flags_standard_information_filename_creation_mismatch() {
    let base = 1_700_000_000i64;
    // $SI creation backdated by a day relative to $FILE_NAME —
    // the classic timestomp.exe / SetMace signature.
    let raw = build_mft_record(base - 86_400, base, "backdated.dll");
    let events = MftParser.parse(&raw, &file("$MFT"));
    let created = events
        .iter()
        .find(|e| e.event_type == "mft_file_created")
        .unwrap();
    assert_eq!(
        created
            .extra
            .get("timestomp_suspected")
            .and_then(|v| v.as_bool()),
        Some(true)
    );
}

#[test]
fn non_mft_bytes_yield_nothing() {
    let parser = MftParser;
    let raw = b"not an mft record".to_vec();
    assert!(!parser.matches(&raw));
    assert!(parser.parse(&raw, &file("x")).is_empty());
}

/// An attribute that is resident, with its content behind a header of 24 bytes.
fn attribute(kind: u32, content: &[u8]) -> Vec<u8> {
    let len = (24 + content.len()).div_ceil(8) * 8;
    let mut out = vec![0u8; len];
    out[0..4].copy_from_slice(&kind.to_le_bytes());
    out[4..8].copy_from_slice(&(len as u32).to_le_bytes());
    out[16..20].copy_from_slice(&(content.len() as u32).to_le_bytes());
    out[20..22].copy_from_slice(&24u16.to_le_bytes());
    out[24..24 + content.len()].copy_from_slice(content);
    out
}

fn standard_information(created: u64, modified: u64, entry: u64, accessed: u64) -> Vec<u8> {
    let mut out = Vec::new();
    for ft in [created, modified, entry, accessed] {
        out.extend_from_slice(&ft.to_le_bytes());
    }
    attribute(ATTR_STANDARD_INFORMATION, &out)
}

fn file_name(namespace: u8, created: u64, name: &str) -> Vec<u8> {
    let units: Vec<u16> = name.encode_utf16().collect();
    let mut out = vec![0u8; 66];
    out[0..8].copy_from_slice(&0xABCD_0000_0000_0005u64.to_le_bytes());
    out[8..16].copy_from_slice(&created.to_le_bytes());
    out[64] = units.len() as u8;
    out[65] = namespace;
    for u in units {
        out.extend_from_slice(&u.to_le_bytes());
    }
    attribute(ATTR_FILE_NAME, &out)
}

/// A record of these attributes, whose update sequence is applied on disk.
fn record(attributes: &[Vec<u8>]) -> Vec<u8> {
    let mut rec = vec![0u8; RECORD_SIZE];
    rec[0..4].copy_from_slice(b"FILE");
    rec[4..6].copy_from_slice(&42u16.to_le_bytes());
    rec[6..8].copy_from_slice(&3u16.to_le_bytes());
    rec[20..22].copy_from_slice(&56u16.to_le_bytes());
    let mut off = 56;
    for a in attributes {
        rec[off..off + a.len()].copy_from_slice(a);
        off += a.len();
    }
    rec[off..off + 4].copy_from_slice(&ATTR_END.to_le_bytes());
    rec[42] = 0x77;
    rec[43] = 0x77;
    for (entry, tail) in [(44usize, 510usize), (46, 1022)] {
        rec[entry] = rec[tail];
        rec[entry + 1] = rec[tail + 1];
        rec[tail] = 0x77;
        rec[tail + 1] = 0x77;
    }
    rec
}

fn ticks(unix: i64) -> u64 {
    (unix * 10_000_000 + FILETIME_EPOCH_OFFSET) as u64
}

fn number(event: &TimelineEvent, key: &str) -> Option<u64> {
    event.extra.get(key).and_then(|v| v.as_u64())
}

#[test]
fn table_has_events_in_order_of_entries() {
    let mut raw = record(&[standard_information(ticks(4), ticks(3), ticks(2), ticks(1))]);
    raw.extend_from_slice(&[0u8; RECORD_SIZE]); // no record
    raw.extend_from_slice(&record(&[
        standard_information(0, ticks(-86_400), 0, 0),
        file_name(3, ticks(5), "old.txt"),
    ]));
    raw.extend_from_slice(b"FILE"); // truncated record
    let events = MftParser.parse(&raw, &file("$MFT"));
    let shown: Vec<(&str, i64, &str)> = events
        .iter()
        .map(|e| (e.event_type.as_str(), e.timestamp.timestamp(), e.description.as_str()))
        .collect();
    assert_eq!(
        shown,
        vec![
            ("mft_file_created", 4, "File created: (unknown name)"),
            ("mft_file_modified", 3, "File modified: (unknown name)"),
            ("mft_entry_modified", 2, "File MFT entry modified: (unknown name)"),
            ("mft_file_accessed", 1, "File accessed: (unknown name)"),
            ("mft_file_modified", -86_400, "File modified: old.txt"),
        ]
    );
    assert_eq!(number(&events[0], "mft_entry"), Some(0));
    assert_eq!(number(&events[0], "namespace"), None);
    assert_eq!(number(&events[4], "mft_entry"), Some(2));
    assert_eq!(number(&events[4], "parent_mft_ref"), Some(5));
    assert_eq!(number(&events[4], "namespace"), Some(3));
    assert!(events.iter().all(|e| e.artifact_path == "$MFT"));
    assert!(events.iter().all(|e| e.source == ArtifactSource::Mft));
}

#[test]
fn truncated_table_has_the_first_events() {
    let one = record(&[standard_information(ticks(4), 0, 0, 0)]);
    let mut raw = one.clone();
    raw.extend_from_slice(&one);
    assert_eq!(MftParser.parse(&raw, &file("$MFT")).len(), 2);
    assert_eq!(MftParser.parse(&raw[0..2047], &file("$MFT")).len(), 1);
    assert_eq!(MftParser.parse(&raw[0..1023], &file("$MFT")).len(), 0);
    assert!(MftParser.matches(b"FILE"));
    assert!(!MftParser.matches(b"FIL"));
}

#[test]
fn win32_name_is_preferred() {
    let info = standard_information(ticks(1), 0, 0, 0);
    for (names, shown) in [
        (vec![(2u8, "LONGNA~1.EXE"), (1, "longname.exe")], "longname.exe"),
        (vec![(1, "longname.exe"), (2, "LONGNA~1.EXE")], "longname.exe"),
        (vec![(0, "posix"), (3, "both")], "both"),
        (vec![(3, "first"), (1, "second")], "first"),
        (vec![(2, "DOS"), (0, "posix")], "DOS"),
        (vec![(0, "posix"), (2, "DOS")], "posix"),
    ] {
        let mut attributes = vec![info.clone()];
        attributes.extend(names.iter().map(|(ns, n)| file_name(*ns, 0, n)));
        let events = MftParser.parse(&record(&attributes), &file("$MFT"));
        assert_eq!(events[0].target_path.as_deref(), Some(shown));
    }
}

#[test]
fn update_sequence_is_undone() {
    // The name reaches over the end of the first sector.
    let name = "n".repeat(200);
    let raw = record(&[
        standard_information(ticks(1), 0, 0, 0),
        attribute(0x80, &[0u8; 120]),
        file_name(1, 0, &name),
    ]);
    let events = MftParser.parse(&raw, &file("$MFT"));
    assert_eq!(events[0].target_path.as_deref(), Some(name.as_str()));
}

#[test]
fn records_without_update_sequence_are_left_out() {
    let good = record(&[standard_information(ticks(1), 0, 0, 0)]);
    let mut no_count = good.clone();
    no_count[6] = 0;
    assert!(MftParser.parse(&no_count, &file("$MFT")).is_empty());
    let mut outside = good.clone();
    outside[4..6].copy_from_slice(&1020u16.to_le_bytes());
    assert!(MftParser.parse(&outside, &file("$MFT")).is_empty());
    assert_eq!(MftParser.parse(&good, &file("$MFT")).len(), 1);
}

#[test]
fn attributes_out_of_the_record_are_ignored() {
    let mut long = record(&[standard_information(ticks(1), 0, 0, 0)]);
    long[60..64].copy_from_slice(&2000u32.to_le_bytes());
    assert!(MftParser.parse(&long, &file("$MFT")).is_empty());
    let mut short = record(&[standard_information(ticks(1), 0, 0, 0)]);
    short[60..64].copy_from_slice(&7u32.to_le_bytes());
    assert!(MftParser.parse(&short, &file("$MFT")).is_empty());
    let mut non_resident = record(&[standard_information(ticks(1), 0, 0, 0)]);
    non_resident[64] = 1;
    assert!(MftParser.parse(&non_resident, &file("$MFT")).is_empty());
}

#[test]
fn timestomping_is_suspected_from_sixty_one_seconds() {
    for (apart, suspected) in [
        (0i64, false),
        (600_000_000, false),
        (609_999_999, false),
        (610_000_000, true),
        (-609_999_999, false),
        (-610_000_000, true),
    ] {
        let created = ticks(1_700_000_000);
        let raw = record(&[
            standard_information(created, ticks(9), 0, 0),
            file_name(1, (created as i64 + apart) as u64, "a"),
        ]);
        let events = MftParser.parse(&raw, &file("$MFT"));
        let flag = events[0].extra.get("timestomp_suspected").and_then(|v| v.as_bool());
        assert_eq!(flag, if suspected { Some(true) } else { None });
        let note = events[0].extra.get("note").and_then(|v| v.as_str());
        assert_eq!(
            note,
            if suspected {
                Some("$STANDARD_INFORMATION creation time differs from $FILE_NAME creation time by more than 60s")
            } else {
                None
            }
        );
        assert_eq!(events[1].extra.get("timestomp_suspected"), None);
    }
}

#[test]
fn file_times_before_1970_are_kept() {
    let raw = record(&[standard_information(1, 0, 1 << 63, u64::MAX)]);
    let events = MftParser.parse(&raw, &file("$MFT"));
    assert_eq!(events.len(), 1);
    assert_eq!(events[0].timestamp.timestamp(), -11_644_473_600);
}

#[test]
fn tables_one_behind_the_other_have_the_events_of_both() {
    let mut a = record(&[standard_information(ticks(1), 0, 0, 0)]);
    a.extend_from_slice(&[0u8; RECORD_SIZE]);
    let b = record(&[
        standard_information(ticks(2), ticks(3), 0, 0),
        file_name(1, ticks(200), "b"),
    ]);
    let mut both = a.clone();
    both.extend_from_slice(&b);
    let (a, b) = (MftParser.parse(&a, &file("$MFT")), MftParser.parse(&b, &file("$MFT")));
    let both = MftParser.parse(&both, &file("$MFT"));
    assert_eq!(both.len(), a.len() + b.len());
    for (i, e) in both.iter().enumerate() {
        let (part, by) = if i < a.len() { (&a[i], 0) } else { (&b[i - a.len()], 2) };
        let entry = number(part, "mft_entry").expect("an entry") + by;
        let expected = part.clone().with_number("mft_entry", entry);
        assert_eq!(e.extra, expected.extra);
        assert_eq!(e.description, expected.description);
        assert_eq!(e.timestamp.timestamp(), expected.timestamp.timestamp());
    }
}
