use chronoscope::artifacts::collect::{collect_at, collect_file, collect_with, route};
use chronoscope::artifacts::evtx::EvtxParser;
use chronoscope::artifacts::lnk::{LnkParser, HEADER_MAGIC};
use chronoscope::artifacts::mft::MftParser;
use chronoscope::artifacts::prefetch::PrefetchParser;
use chronoscope::artifacts::{ArtifactParser, SourceFile};
use chronoscope::timeline::time::{Clock, Timestamp};
use chronoscope::timeline::ArtifactSource;

fn file(path: &str) -> SourceFile {
    SourceFile { path: path.to_string(), stem: None, modified: None }
}

#[test]
fn files_go_to_the_parser_that_recognizes_them() {
    assert_eq!(route(&HEADER_MAGIC), Some(ArtifactSource::Lnk));
    assert_eq!(route(b"ElfFile\0"), Some(ArtifactSource::Evtx));
    assert_eq!(route(b"FILE"), Some(ArtifactSource::Mft));
    assert_eq!(route(b"MAM\x04\0\0\0\0"), Some(ArtifactSource::Prefetch));
    assert_eq!(route(b"\x17\0\0\0SCCA"), Some(ArtifactSource::Prefetch));
    assert_eq!(route(b"something else"), None);
    assert_eq!(route(b""), None);
}

#[test]
fn the_first_parser_wins() {
    let both = b"FILESCCA";
    assert!(MftParser.matches(both));
    assert!(PrefetchParser.matches(both));
    assert_eq!(route(both), Some(ArtifactSource::Mft));
}

#[test]
fn parsers_have_the_names_of_their_sources() {
    assert_eq!(LnkParser.source_name(), "lnk");
    assert_eq!(EvtxParser.source_name(), "evtx");
    assert_eq!(MftParser.source_name(), "mft");
    assert_eq!(PrefetchParser.source_name(), "prefetch");
}

#[test]
fn events_name_source_and_path() {
    let now = Timestamp::new(1, 2).expect("a moment");
    let events = collect_at(&HEADER_MAGIC, &file("x/y.lnk"), now);
    assert_eq!(events.len(), 1);
    assert_eq!(events[0].source, ArtifactSource::Lnk);
    assert_eq!(events[0].artifact_path, "x/y.lnk");
    assert_eq!(events[0].timestamp.timestamp(), 1);
    assert!(collect_at(b"something else", &file("x"), now).is_empty());
}

#[test]
fn undated_files_get_the_present() {
    let before = Timestamp::now();
    let events = collect_file(&HEADER_MAGIC, &file("x.lnk"));
    assert_eq!(events.len(), 1);
    assert!(before.not_after(&events[0].timestamp));
}

#[test]
fn known_file_time_is_used_in_place_of_the_present() {
    let known = SourceFile { modified: Timestamp::new(77, 0), ..file("x.lnk") };
    assert_eq!(collect_file(&HEADER_MAGIC, &known)[0].timestamp.timestamp(), 77);
}

#[test]
fn no_bytes_are_too_broken() {
    let now = Timestamp::new(0, 0).expect("a moment");
    let starts: [&[u8]; 5] =
        [&HEADER_MAGIC, b"ElfFile\0", b"FILE", b"MAM\x04\x40\0\0\0", b"\x1E\0\0\0SCCA"];
    for start in starts {
        for fill in [0x00u8, 0x01, 0x2A, 0x7F, 0xFF] {
            for len in [0usize, 1, 100, 4096, 70_000] {
                let mut raw = start.to_vec();
                raw.resize(start.len() + len, fill);
                let events = collect_at(&raw, &file("x"), now);
                assert!(events.iter().all(|e| route(&raw) == Some(e.source)));
            }
        }
    }
}

#[test]
fn the_clock_is_read_only_where_it_is_needed() {
    let mut clock = Clock::system();
    let known = SourceFile { modified: Timestamp::new(77, 0), ..file("x.lnk") };
    assert_eq!(collect_with(&HEADER_MAGIC, &known, &mut clock).len(), 1);
    assert_eq!(collect_with(b"something else", &file("x"), &mut clock).len(), 0);
    assert_eq!(collect_with(b"FILE", &file("x"), &mut clock).len(), 0);
    assert_eq!(collect_with(b"ElfFile\0", &file("x"), &mut clock).len(), 0);
    let mut dated = HEADER_MAGIC.to_vec();
    dated.resize(76, 1); // FILETIMEs that are set
    assert_eq!(collect_with(&dated, &file("x.lnk"), &mut clock).len(), 1);
    assert!(clock.readings().is_empty());
    assert_eq!(collect_with(&HEADER_MAGIC, &file("x.lnk"), &mut clock).len(), 1);
    assert_eq!(clock.readings().len(), 1);
}
