use std::path::Path;

use chronoscope::artifacts::lnk::{LnkParser, BLOCK_TRACKER, HEADER_MAGIC, HEADER_SIZE};
use chronoscope::artifacts::{ArtifactParser, SourceFile};
use chronoscope::timeline::time::Timestamp;
use chronoscope::timeline::{ArtifactSource, TimelineEvent};

/// The source file of a path that is not on disk.
fn file(path: &str) -> SourceFile {
    let stem = Path::new(path).file_stem().and_then(|s| s.to_str());
    SourceFile { path: path.to_string(), stem: stem.map(|s| s.to_string()), modified: None }
}

/// Minimal but structurally valid MS-SHLLINK builder, just enough to
/// exercise header + LinkInfo + StringData + tracker block.
fn build_lnk(target: &str, args: Option<&str>, machine: Option<&str>) -> Vec<u8> {
    let ft_2023: u64 = (1_685_577_600u64 * 10_000_000) + 116_444_736_000_000_000;

    let mut flags: u32 = 0x80; // IsUnicode
    flags |= 0x0002; // HasLinkInfo
    if args.is_some() {
        flags |= 0x0020; // HasArguments
    }

    let mut header = vec![0u8; HEADER_SIZE];
    header[0..20].copy_from_slice(&HEADER_MAGIC);
    header[20..24].copy_from_slice(&flags.to_le_bytes());
    header[28..36].copy_from_slice(&ft_2023.to_le_bytes()); // ctime
    header[36..44].copy_from_slice(&ft_2023.to_le_bytes()); // atime
    header[44..52].copy_from_slice(&ft_2023.to_le_bytes()); // wtime
    header[60..64].copy_from_slice(&1u32.to_le_bytes()); // ShowCommand

    // LinkInfo: VolumeIDAndLocalBasePath only.
    let lbp = target.as_bytes();
    let vol = {
        let mut v = vec![0u8; 16];
        v[0..4].copy_from_slice(&0x11u32.to_le_bytes());
        v
    };
    let vol_off: u32 = 0x1C;
    let lbp_off: u32 = vol_off + vol.len() as u32;
    let mut link_info_body = Vec::new();
    link_info_body.extend_from_slice(&0u32.to_le_bytes()); // LinkInfoSize placeholder
    link_info_body.extend_from_slice(&0x1Cu32.to_le_bytes()); // LinkInfoHeaderSize
    link_info_body.extend_from_slice(&0x1u32.to_le_bytes()); // Flags: VolumeIDAndLocalBasePath
    link_info_body.extend_from_slice(&vol_off.to_le_bytes());
    link_info_body.extend_from_slice(&lbp_off.to_le_bytes());
    link_info_body.extend_from_slice(&0u32.to_le_bytes());
    link_info_body.extend_from_slice(&(lbp_off + lbp.len() as u32 + 1).to_le_bytes());
    link_info_body.extend_from_slice(&vol);
    link_info_body.extend_from_slice(lbp);
    link_info_body.push(0);
    let total_len = link_info_body.len() as u32;
    link_info_body[0..4].copy_from_slice(&total_len.to_le_bytes());

    let mut string_data = Vec::new();
    if let Some(a) = args {
        let units: Vec<u16> = a.encode_utf16().collect();
        string_data.extend_from_slice(&(units.len() as u16).to_le_bytes());
        for u in units {
            string_data.extend_from_slice(&u.to_le_bytes());
        }
    }

    let mut extra = Vec::new();
    if let Some(m) = machine {
        let mut block = vec![0u8; 0x60];
        block[0..4].copy_from_slice(&0x60u32.to_le_bytes());
        block[4..8].copy_from_slice(&BLOCK_TRACKER.to_le_bytes());
        let mbytes = m.as_bytes();
        block[16..16 + mbytes.len().min(16)].copy_from_slice(&mbytes[..mbytes.len().min(16)]);
        // Version-1 UUID at offset 48..64: set version nibble + a MAC node.
        block[48 + 7] = 0x10; // time_hi_and_version high byte -> version 1
        block[48 + 10..48 + 16].copy_from_slice(&[0xaa, 0xbb, 0xcc, 0xdd, 0xee, 0xff]);
        extra.extend_from_slice(&block);
    }
    extra.extend_from_slice(&0u32.to_le_bytes()); // terminal block

    let mut out = header;
    out.extend_from_slice(&link_info_body);
    out.extend_from_slice(&string_data);
    out.extend_from_slice(&extra);
    out
}

#[test]
fn parses_target_and_timestamp() {
    let raw = build_lnk(r"C:\Windows\System32\cmd.exe", None, None);
    let parser = LnkParser;
    assert!(parser.matches(&raw));
    let events = parser.parse(&raw, &file("test.lnk"));
    assert_eq!(events.len(), 1);
    assert_eq!(
        events[0].target_path.as_deref(),
        Some(r"C:\Windows\System32\cmd.exe")
    );
    assert_eq!(
        events[0].timestamp.to_rfc3339(),
        "2023-06-01T00:00:00+00:00"
    );
}

#[test]
fn captures_arguments_and_tracker_provenance() {
    let raw = build_lnk(
        r"C:\Windows\System32\WindowsPowerShell\v1.0\powershell.exe",
        Some("-enc AAAA"),
        Some("BUILDER-PC"),
    );
    let parser = LnkParser;
    let events = parser.parse(&raw, &file("evil.lnk"));
    assert_eq!(events.len(), 1);
    let extra = &events[0].extra;
    assert_eq!(
        extra.get("arguments").and_then(|v| v.as_str()),
        Some("-enc AAAA")
    );
    assert_eq!(
        extra.get("builder_machine_id").and_then(|v| v.as_str()),
        Some("BUILDER-PC")
    );
    assert_eq!(
        extra.get("builder_mac_address").and_then(|v| v.as_str()),
        Some("aa:bb:cc:dd:ee:ff")
    );
}

#[test]
fn non_lnk_bytes_yield_nothing() {
    let parser = LnkParser;
    let raw = b"not a shortcut".to_vec();
    assert!(!parser.matches(&raw));
    assert!(parser.parse(&raw, &file("x")).is_empty());
}

/// A shortcut of a header with these flags and FILETIMEs (created, accessed,
/// written), and what follows it.
fn header(flags: u32, created: u64, accessed: u64, written: u64) -> Vec<u8> {
    let mut raw = vec![0u8; HEADER_SIZE];
    raw[0..20].copy_from_slice(&HEADER_MAGIC);
    raw[20..24].copy_from_slice(&flags.to_le_bytes());
    raw[28..36].copy_from_slice(&created.to_le_bytes());
    raw[36..44].copy_from_slice(&accessed.to_le_bytes());
    raw[44..52].copy_from_slice(&written.to_le_bytes());
    raw
}

fn filetime(unix: i64) -> u64 {
    (unix * 10_000_000 + 116_444_736_000_000_000) as u64
}

fn extra<'a>(event: &'a TimelineEvent, key: &str) -> Option<&'a str> {
    event.extra.get(key).and_then(|v| v.as_str())
}

fn dated(path: &str, secs: i64) -> SourceFile {
    SourceFile { modified: Timestamp::new(secs, 0), ..file(path) }
}

#[test]
fn shortcut_without_anything_has_one_event() {
    let raw = header(0, 0, 0, 0);
    let events = LnkParser.parse(&raw, &dated("dir/bare.lnk", 1_600_000_000));
    assert_eq!(events.len(), 1);
    let e = &events[0];
    assert_eq!(e.source, ArtifactSource::Lnk);
    assert_eq!(e.event_type, "lnk_target_referenced");
    assert_eq!(e.artifact_path, "dir/bare.lnk");
    assert_eq!(e.description, "Shortcut targets (no target)");
    assert_eq!(e.target_path.as_deref(), Some("(no target)"));
    assert_eq!(e.timestamp.timestamp(), 1_600_000_000);
    assert_eq!(extra(e, "link_flags"), Some("0x00000000"));
    assert_eq!(e.extra.get("show_command").and_then(|v| v.as_u64()), Some(0));
    assert_eq!(e.extra.len(), 2);
}

#[test]
fn written_time_comes_before_created_time() {
    let now = Timestamp::new(9, 9).expect("a moment");
    let raw = header(0, filetime(100), filetime(200), filetime(300));
    let e = &LnkParser.parse_at(&raw, &dated("a.lnk", 5), now)[0];
    assert_eq!(e.timestamp.timestamp(), 300);
    assert_eq!(extra(e, "target_created"), Some("1970-01-01T00:01:40+00:00"));
    assert_eq!(extra(e, "target_accessed"), Some("1970-01-01T00:03:20+00:00"));

    let raw = header(0, filetime(-100), 0, 0);
    let e = &LnkParser.parse_at(&raw, &dated("a.lnk", 5), now)[0];
    assert_eq!(e.timestamp.timestamp(), -100);
    assert_eq!(extra(e, "target_created"), Some("1969-12-31T23:58:20+00:00"));
    assert_eq!(extra(e, "target_accessed"), None);

    let raw = header(0, 0, filetime(200), 0);
    let e = &LnkParser.parse_at(&raw, &dated("a.lnk", 5), now)[0];
    assert_eq!(e.timestamp.timestamp(), 5);
    let e = &LnkParser.parse_at(&raw, &file("a.lnk"), now)[0];
    assert_eq!((e.timestamp.timestamp(), e.timestamp.timestamp_subsec_nanos()), (9, 9));
}

#[test]
fn header_alone_is_enough() {
    let raw = HEADER_MAGIC.to_vec();
    assert!(LnkParser.matches(&raw));
    let events = LnkParser.parse(&raw, &dated("cut.lnk", 7));
    assert_eq!(events.len(), 1);
    assert_eq!(events[0].timestamp.timestamp(), 7);
    assert!(!LnkParser.matches(&HEADER_MAGIC[0..19]));
    assert!(LnkParser.parse(&HEADER_MAGIC[0..19], &file("cut.lnk")).is_empty());
}

#[test]
fn strings_of_one_byte_per_character() {
    // HasLinkTargetIDList, HasName, HasRelativePath, HasWorkingDir,
    // HasArguments, HasIconLocation, not unicode.
    let mut raw = header(0x7D, 0, 0, 0);
    raw.extend_from_slice(&[3, 0, 9, 9, 9]); // ID list of three bytes
    for s in ["name", "..\\a.exe", "C:\\dir", "  ", "icon"] {
        raw.extend_from_slice(&(s.len() as u16).to_le_bytes());
        raw.extend_from_slice(s.as_bytes());
    }
    let e = &LnkParser.parse(&raw, &dated("a.lnk", 0))[0];
    assert_eq!(e.target_path.as_deref(), Some("..\\a.exe"));
    assert_eq!(e.description, "Shortcut targets ..\\a.exe");
    assert_eq!(extra(e, "arguments"), Some("  "));
    assert_eq!(extra(e, "working_dir"), Some("C:\\dir"));
    assert_eq!(extra(e, "icon_location"), Some("icon"));
    assert_eq!(extra(e, "link_flags"), Some("0x0000007d"));
    assert_eq!(e.extra.get("overlay_bytes"), None);
}

#[test]
fn truncated_string_ends_string_data() {
    // HasRelativePath and HasArguments: the first one is longer than the file.
    let mut raw = header(0x28, 0, 0, 0);
    raw.extend_from_slice(&[200, 0]);
    raw.extend_from_slice(&[b'x'; 40]);
    let e = &LnkParser.parse(&raw, &dated("a.lnk", 0))[0];
    assert_eq!(e.target_path.as_deref(), Some("(no target)"));
    assert_eq!(extra(e, "arguments"), None);
    assert_eq!(e.extra.get("overlay_bytes").and_then(|v| v.as_u64()), Some(40));
}

#[test]
fn network_path_is_the_last_choice() {
    let mut raw = header(0x02, 0, 0, 0);
    let mut info = vec![0u8; 0x1C];
    info[8..12].copy_from_slice(&2u32.to_le_bytes()); // CommonNetworkRelativeLink
    info[20..24].copy_from_slice(&0x1Cu32.to_le_bytes());
    let mut link = vec![0u8; 20];
    link[8..12].copy_from_slice(&20u32.to_le_bytes());
    info.extend_from_slice(&link);
    info.extend_from_slice(b"\\\\server\\share\0");
    let size = info.len() as u32;
    info[0..4].copy_from_slice(&size.to_le_bytes());
    raw.extend_from_slice(&info);
    let e = &LnkParser.parse(&raw, &dated("a.lnk", 0))[0];
    assert_eq!(e.target_path.as_deref(), Some("\\\\server\\share"));
}

#[test]
fn references_out_of_the_file_are_ignored() {
    let mut raw = header(0x02, 0, 0, 0);
    let mut info = vec![0u8; 0x1C];
    info[0..4].copy_from_slice(&0xFFFF_FFFFu32.to_le_bytes());
    info[8..12].copy_from_slice(&3u32.to_le_bytes());
    info[16..20].copy_from_slice(&0xFFFF_FFFFu32.to_le_bytes());
    info[20..24].copy_from_slice(&0xFFFF_FFFFu32.to_le_bytes());
    raw.extend_from_slice(&info);
    let e = &LnkParser.parse(&raw, &dated("a.lnk", 0))[0];
    assert_eq!(e.target_path.as_deref(), Some("(no target)"));
    assert_eq!(e.extra.get("overlay_bytes"), None);
}

#[test]
fn overlay_counts_from_seventeen_bytes() {
    for (n, shown) in [(16u64, None), (17, Some(17)), (1000, Some(1000))] {
        let mut raw = header(0, 0, 0, 0);
        raw.extend_from_slice(&[0, 0, 0, 0]); // terminal block
        raw.extend_from_slice(&vec![0xEE; n as usize]);
        let e = &LnkParser.parse(&raw, &dated("a.lnk", 0))[0];
        assert_eq!(e.extra.get("overlay_bytes").and_then(|v| v.as_u64()), shown);
    }
}

#[test]
fn mac_address_needs_a_version_1_uuid_with_a_node() {
    for (version, node, shown) in [
        (0x10u8, [1u8, 2, 3, 4, 5, 0xAB], Some("01:02:03:04:05:ab")),
        (0x1F, [0, 0, 0, 0, 0, 1], Some("00:00:00:00:00:01")),
        (0x40, [1, 2, 3, 4, 5, 6], None),
        (0x10, [0, 0, 0, 0, 0, 0], None),
    ] {
        let mut block = vec![0u8; 0x60];
        block[0..4].copy_from_slice(&0x60u32.to_le_bytes());
        block[4..8].copy_from_slice(&BLOCK_TRACKER.to_le_bytes());
        block[16..32].copy_from_slice(b"SIXTEEN-BYTES-PC");
        block[55] = version;
        block[58..64].copy_from_slice(&node);
        let mut raw = header(0, 0, 0, 0);
        raw.extend_from_slice(&[8, 0, 0, 0, 0x01, 0, 0, 0xA0]); // another block first
        raw.extend_from_slice(&block);
        let e = &LnkParser.parse(&raw, &dated("a.lnk", 0))[0];
        assert_eq!(extra(e, "builder_mac_address"), shown);
        assert_eq!(extra(e, "builder_machine_id"), Some("SIXTEEN-BYTES-PC"));
    }
}
