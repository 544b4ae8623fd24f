use std::path::Path;

use chronoscope::artifacts::prefetch::{
    PrefetchParser, EXECUTABLE_NAME_OFFSET, HEADER_SIZE, PREFETCH_HASH_OFFSET,
};
use chronoscope::artifacts::{ArtifactParser, SourceFile};
use chronoscope::timeline::time::{Timestamp, FILETIME_EPOCH_OFFSET};

const MAM_MAGIC: [u8; 4] = *b"MAM\x04";
const SCCA_MAGIC: [u8; 4] = *b"SCCA";

/// The source file of a path that is not on disk.
fn file(path: &str) -> SourceFile {
    let stem = Path::new(path).file_stem().and_then(|s| s.to_str());
    SourceFile { path: path.to_string(), stem: stem.map(|s| s.to_string()), modified: None }
}

fn utf16le(s: &str) -> Vec<u8> {
    s.encode_utf16().flat_map(|u| u.to_le_bytes()).collect()
}

fn filetime_bytes(unix_ts: i64) -> [u8; 8] {
    ((unix_ts * 10_000_000 + FILETIME_EPOCH_OFFSET) as u64).to_le_bytes()
}

/// Builds a synthetic, uncompressed version-23 (Vista/7) SCCA
/// buffer: header, file-information section (single last-run
/// time), one volume-information entry, and a two-entry filename
/// strings section.
fn build_v23_prefetch(
    exe_name: &str,
    prefetch_hash: u32,
    run_count: u32,
    last_run_unix: Option<i64>,
    referenced: &[&str],
) -> Vec<u8> {
    const FILE_INFO_SIZE: usize = 156;
    let mut buf = vec![0u8; HEADER_SIZE + FILE_INFO_SIZE];

    buf[0..4].copy_from_slice(&23u32.to_le_bytes());
    buf[4..8].copy_from_slice(&SCCA_MAGIC);
    let name_bytes = utf16le(exe_name);
    buf[EXECUTABLE_NAME_OFFSET..EXECUTABLE_NAME_OFFSET + name_bytes.len()]
        .copy_from_slice(&name_bytes);
    buf[PREFETCH_HASH_OFFSET..PREFETCH_HASH_OFFSET + 4]
        .copy_from_slice(&prefetch_hash.to_le_bytes());

    // Filename strings section, appended after the fixed header.
    let filename_strings_offset = buf.len() as u32;
    let mut filename_strings = Vec::new();
    for name in referenced {
        filename_strings.extend_from_slice(&utf16le(name));
        filename_strings.extend_from_slice(&[0, 0]);
    }
    let filename_strings_size = filename_strings.len() as u32;
    buf.extend_from_slice(&filename_strings);

    // One volume-information entry (104 bytes), appended next.
    let volumes_offset = buf.len() as u32;
    let device_path = r"\DEVICE\HARDDISKVOLUME1";
    let device_path_bytes = utf16le(device_path);
    let mut volume_entry = vec![0u8; 104];
    let device_path_rel_offset: u32 = 104; // right after this entry
    volume_entry[0..4].copy_from_slice(&device_path_rel_offset.to_le_bytes());
    volume_entry[4..8].copy_from_slice(&(device_path.chars().count() as u32).to_le_bytes());
    volume_entry[8..16].copy_from_slice(&filetime_bytes(1_600_000_000));
    volume_entry[16..20].copy_from_slice(&0xDEAD_BEEFu32.to_le_bytes());
    buf.extend_from_slice(&volume_entry);
    buf.extend_from_slice(&device_path_bytes);
    buf.extend_from_slice(&[0, 0]);

    // File-information section fields (all at HEADER_SIZE + N).
    let fi = HEADER_SIZE;
    let metrics_array_offset = buf.len() as u32; // no metrics entries; offset just needs to be self-consistent
    buf[fi..fi + 4].copy_from_slice(&metrics_array_offset.to_le_bytes());
    buf[fi + 16..fi + 20].copy_from_slice(&filename_strings_offset.to_le_bytes());
    buf[fi + 20..fi + 24].copy_from_slice(&filename_strings_size.to_le_bytes());
    buf[fi + 24..fi + 28].copy_from_slice(&volumes_offset.to_le_bytes());
    buf[fi + 28..fi + 32].copy_from_slice(&1u32.to_le_bytes()); // volumes count
    if let Some(ts) = last_run_unix {
        buf[fi + 44..fi + 52].copy_from_slice(&filetime_bytes(ts));
    }
    buf[fi + 68..fi + 72].copy_from_slice(&run_count.to_le_bytes());

    buf
}

#[test]
fn parses_executable_name_and_last_run_time() {
    let raw = build_v23_prefetch(
        "CMD.EXE",
        0x1234_5678,
        5,
        Some(1_700_000_000),
        &[
            r"C:\WINDOWS\SYSTEM32\NTDLL.DLL",
            r"C:\WINDOWS\SYSTEM32\KERNEL32.DLL",
        ],
    );
    let parser = PrefetchParser;
    assert!(parser.matches(&raw));
    let events = parser.parse(&raw, &file("CMD.EXE-12345678.pf"));
    assert_eq!(events.len(), 1);
    let event = &events[0];
    assert_eq!(event.target_path.as_deref(), Some("CMD.EXE"));
    assert_eq!(event.timestamp.timestamp(), 1_700_000_000);
    assert_eq!(
        event.extra.get("run_count").and_then(|v| v.as_u64()),
        Some(5)
    );
    assert_eq!(
        event
            .extra
            .get("referenced_file_count")
            .and_then(|v| v.as_u64()),
        Some(2)
    );
    assert_eq!(
        event
            .extra
            .get("volume_serial_number")
            .and_then(|v| v.as_str()),
        Some("0xDEADBEEF")
    );
    assert!(event.extra.get("filename_hash_mismatch").is_none());
}

#[test]
fn flags_run_count_last_run_mismatch() {
    let raw = build_v23_prefetch("EVIL.EXE", 0x1111_1111, 7, None, &[]);
    let events = PrefetchParser.parse(&raw, &file("EVIL.EXE-11111111.pf"));
    assert_eq!(events.len(), 1);
    assert_eq!(
        events[0]
            .extra
            .get("run_count_mismatch_suspected")
            .and_then(|v| v.as_bool()),
        Some(true)
    );
}

#[test]
fn flags_filename_hash_mismatch() {
    let raw = build_v23_prefetch("NOTEPAD.EXE", 0xAAAA_BBBB, 1, Some(1_700_000_000), &[]);
    // Filename declares a different hash than the header's.
    let events = PrefetchParser.parse(&raw, &file("NOTEPAD.EXE-00000000.pf"));
    assert_eq!(events.len(), 1);
    assert_eq!(
        events[0]
            .extra
            .get("filename_hash_mismatch")
            .and_then(|v| v.as_bool()),
        Some(true)
    );
}

#[test]
fn non_prefetch_bytes_yield_nothing() {
    let parser = PrefetchParser;
    let raw = b"not a prefetch file at all, just plain text".to_vec();
    assert!(!parser.matches(&raw));
    assert!(parser.parse(&raw, &file("x")).is_empty());
}

#[test]
fn matches_recognizes_mam_wrapper() {
    let parser = PrefetchParser;
    let mut mam = MAM_MAGIC.to_vec();
    mam.extend_from_slice(&100u32.to_le_bytes());
    mam.extend_from_slice(&[0u8; 32]);
    assert!(parser.matches(&mam));
}

#[test]
fn corrupt_mam_size_field_yields_no_events_not_panic() {
    let mut mam = MAM_MAGIC.to_vec();
    mam.extend_from_slice(&0xFFFF_FFFFu32.to_le_bytes());
    mam.extend_from_slice(&[0xAB; 512]);
    let events = PrefetchParser.parse(&mam, &file("huge.pf"));
    assert!(events.is_empty());
}

/// An SCCA structure of a version, with file information of a size, run times
/// and a run count where that version has them.
fn scca(version: u32, info_size: usize, times_at: usize, times: &[i64], count_at: usize) -> Vec<u8> {
    let mut raw = vec![0u8; HEADER_SIZE + info_size.max(200)];
    raw[0..4].copy_from_slice(&version.to_le_bytes());
    raw[4..8].copy_from_slice(&SCCA_MAGIC);
    raw[16..22].copy_from_slice(&utf16le("A.B"));
    raw[76..80].copy_from_slice(&0x0123_ABCDu32.to_le_bytes());
    raw[84..88].copy_from_slice(&((HEADER_SIZE + info_size) as u32).to_le_bytes());
    for (i, t) in times.iter().enumerate() {
        raw[times_at + 8 * i..times_at + 8 * i + 8].copy_from_slice(&filetime_bytes(*t));
    }
    raw[count_at..count_at + 4].copy_from_slice(&77u32.to_le_bytes());
    raw
}

fn times_of(raw: &[u8]) -> Vec<i64> {
    let events = PrefetchParser.parse(raw, &file("a.pf"));
    assert!(events.iter().all(|e| e.description == "Executed: A.B (run count: 77)"));
    events.iter().map(|e| e.timestamp.timestamp()).collect()
}

#[test]
fn each_version_has_its_layout() {
    assert_eq!(times_of(&scca(17, 68, 120, &[1], 144)), vec![1]);
    assert_eq!(times_of(&scca(23, 156, 128, &[2], 152)), vec![2]);
    assert_eq!(times_of(&scca(26, 224, 128, &[3, 4], 208)), vec![3, 4]);
    assert_eq!(times_of(&scca(30, 220, 128, &[5], 208)), vec![5]);
    assert_eq!(times_of(&scca(30, 212, 128, &[6], 200)), vec![6]);
    assert_eq!(times_of(&scca(31, 212, 128, &[7, 8, 9, 10, 11, 12, 13, 14], 200)).len(), 8);
}

#[test]
fn unknown_versions_have_no_events() {
    assert!(times_of(&scca(30, 216, 128, &[5], 208)).is_empty());
    assert!(times_of(&scca(18, 156, 128, &[5], 152)).is_empty());
    let mut raw = scca(23, 156, 128, &[2], 152);
    raw[84..88].copy_from_slice(&83u32.to_le_bytes());
    assert!(times_of(&raw).is_empty());
    assert!(times_of(&scca(23, 156, 128, &[2], 152)[0..87]).is_empty());
    assert!(times_of(&scca(23, 156, 128, &[2], 152)[0..8]).is_empty());
}

#[test]
fn truncated_file_has_what_is_left() {
    // Only the header and the metrics offset are left.
    let raw = &scca(23, 156, 128, &[2], 152)[0..88];
    let known = SourceFile { modified: Timestamp::new(1_234, 5), ..file("a.pf") };
    let events = PrefetchParser.parse(raw, &known);
    assert_eq!(events.len(), 1);
    assert_eq!(events[0].timestamp.timestamp(), 1_234);
    assert_eq!(events[0].description, "Executed: A.B (run count: 0)");
    assert_eq!(events[0].extra.get("run_count_mismatch_suspected"), None);
    let now = Timestamp::new(42, 0).expect("a moment");
    let events = PrefetchParser.parse_at(raw, &file("a.pf"), now);
    assert_eq!(events[0].timestamp.timestamp(), 42);
}

#[test]
fn unset_run_times_are_left_out() {
    let mut raw = scca(26, 224, 128, &[3, 4, 5], 208);
    raw[136..144].copy_from_slice(&[0u8; 8]);
    assert_eq!(times_of(&raw), vec![3, 5]);
}

#[test]
fn run_count_of_zero_with_run_times_is_suspect() {
    let mut raw = scca(23, 156, 128, &[2], 152);
    raw[152] = 0;
    let e = &PrefetchParser.parse(&raw, &file("a.pf"))[0];
    let flag = e.extra.get("run_count_mismatch_suspected").and_then(|v| v.as_bool());
    assert_eq!(flag, Some(true));
    assert_eq!(
        e.extra.get("run_count_mismatch_note").and_then(|v| v.as_str()),
        Some(
            "run_count and recorded last-run timestamp count are inconsistent — \
             possible truncated or tampered prefetch file"
        )
    );
}

#[test]
fn hash_in_the_name_is_compared() {
    let raw = scca(23, 156, 128, &[2], 152);
    for (path, flagged) in [
        ("A.B-0123ABCD.pf", false),
        ("A.B-0123abcd.pf", false),
        ("dir/X-Y-0123ABCD.pf", false),
        ("A.B-123ABCD.pf", false),   // seven digits are no hash
        ("A.B-00123ABCD.pf", false), // nine are none either
        ("A.B.pf", false),
        ("A.B-0123ABCE.pf", true),
        ("A.B-+123ABCD.pf", false),
        ("A.B-+123ABCE.pf", true),
        ("A.B-0123-BCD.pf", false),
        ("A.B-0123ABCG.pf", false),
        ("-0000000G.pf", false),
        ("-00000000.pf", true),
    ] {
        let e = &PrefetchParser.parse(&raw, &file(path))[0];
        let flag = e.extra.get("filename_hash_mismatch").and_then(|v| v.as_bool());
        assert_eq!(flag, if flagged { Some(true) } else { None }, "{}", path);
        assert_eq!(
            e.extra.get("filename_hash_mismatch_note").is_some(),
            flagged,
            "{}",
            path
        );
        assert_eq!(e.extra.get("prefetch_hash").and_then(|v| v.as_str()), Some("0x0123ABCD"));
    }
}

#[test]
fn volume_is_described() {
    let raw = build_v23_prefetch("A.EXE", 1, 1, Some(1), &[]);
    let e = &PrefetchParser.parse(&raw, &file("a.pf"))[0];
    assert_eq!(
        e.extra.get("volume_device_path").and_then(|v| v.as_str()),
        Some("\\DEVICE\\HARDDISKVOLUME1")
    );
    assert_eq!(
        e.extra.get("volume_created").and_then(|v| v.as_str()),
        Some("2020-09-13T12:26:40+00:00")
    );
    let mut none = raw.clone();
    none[112..116].copy_from_slice(&[0u8; 4]);
    let e = &PrefetchParser.parse(&none, &file("a.pf"))[0];
    assert_eq!(e.extra.get("volume_device_path"), None);
    let mut outside = raw.clone();
    outside[108..112].copy_from_slice(&0xFFFF_FFF0u32.to_le_bytes());
    let e = &PrefetchParser.parse(&outside, &file("a.pf"))[0];
    assert_eq!(e.extra.get("volume_serial_number"), None);
}

#[test]
fn boot_prefetch_is_marked() {
    let mut raw = scca(23, 156, 128, &[2], 152);
    assert_eq!(PrefetchParser.parse(&raw, &file("a.pf"))[0].extra.get("is_boot_prefetch"), None);
    raw[80] = 3;
    let e = &PrefetchParser.parse(&raw, &file("a.pf"))[0];
    assert_eq!(e.extra.get("is_boot_prefetch").and_then(|v| v.as_bool()), Some(true));
}

#[test]
fn unnamed_executable_is_unknown() {
    let mut raw = scca(23, 156, 128, &[2], 152);
    raw[16..18].copy_from_slice(&[0, 0]);
    let e = &PrefetchParser.parse(&raw, &file("a.pf"))[0];
    assert_eq!(e.target_path.as_deref(), Some("(unknown)"));
}

#[test]
fn referenced_files_are_counted() {
    for (names, unterminated, count) in [
        (vec!["a", "", "bc", ""], "", 2u64),
        (vec!["a"], "rest", 1),
        (vec![], "rest", 0),
        (vec!["x"; 5000], "", 4096),
    ] {
        let mut raw = scca(23, 156, 128, &[2], 152);
        let offset = raw.len() as u32;
        for n in names {
            raw.extend_from_slice(&utf16le(n));
            raw.extend_from_slice(&[0, 0]);
        }
        raw.extend_from_slice(&utf16le(unterminated));
        let size = raw.len() as u32 - offset;
        raw[100..104].copy_from_slice(&offset.to_le_bytes());
        raw[104..108].copy_from_slice(&size.to_le_bytes());
        let e = &PrefetchParser.parse(&raw, &file("a.pf"))[0];
        assert_eq!(e.extra.get("referenced_file_count").and_then(|v| v.as_u64()), Some(count));
    }
}

/// Compressed with a code of eight bits for every symbol, its own value.
fn compressed(plain: &[u8]) -> Vec<u8> {
    let mut out = MAM_MAGIC.to_vec();
    out.extend_from_slice(&(plain.len() as u32).to_le_bytes());
    let mut table = [0u8; 256];
    for b in table.iter_mut().take(128) {
        *b = 0x88;
    }
    out.extend_from_slice(&table);
    for pair in plain.chunks(2) {
        out.push(*pair.get(1).unwrap_or(&0));
        out.push(pair[0]);
    }
    out
}

#[test]
fn compressed_file_has_the_events_of_its_content() {
    let raw = scca(31, 212, 128, &[7, 8], 200);
    let packed = compressed(&raw);
    assert!(PrefetchParser.matches(&packed));
    assert_eq!(times_of(&packed), times_of(&raw));
    assert_eq!(times_of(&packed), vec![7, 8]);
    assert!(PrefetchParser.parse(&packed[0..300], &file("a.pf")).is_empty());
    assert!(!PrefetchParser.matches(&packed[0..7]));
}
