//! Which files go to which parser, in terms of their first bytes.

use vstd::prelude::*;

use super::log;
use crate::artifacts::collect;
use crate::artifacts::evtx::EvtxParser;
use crate::artifacts::lnk::{LnkParser, HEADER_MAGIC};
use crate::artifacts::mft::MftParser;
use crate::artifacts::prefetch::PrefetchParser;
use crate::artifacts::{ArtifactParser, FileView};
use crate::timeline::time;
use crate::timeline::ArtifactSource;

verus! {

/// Whether bytes start as a shortcut does: the size of its header, 76, and the
/// class identifier 00021401-0000-0000-C000-000000000046.
pub open spec fn starts_shortcut(raw: Seq<u8>) -> bool {
    raw.len() >= 20 && raw.take(20) == seq![
        0x4Cu8,
        0x00,
        0x00,
        0x00,
        0x01,
        0x14,
        0x02,
        0x00,
        0x00,
        0x00,
        0x00,
        0x00,
        0xC0,
        0x00,
        0x00,
        0x00,
        0x00,
        0x00,
        0x00,
        0x46,
    ]
}

/// Whether bytes start as a table does: `FILE`.
pub open spec fn starts_table(raw: Seq<u8>) -> bool {
    raw.len() >= 4 && raw.take(4) == seq![0x46u8, 0x49, 0x4C, 0x45]
}

/// Whether bytes start as a prefetch file does: `SCCA` behind four bytes, or
/// `MAM` and 4 where it is compressed.
pub open spec fn starts_prefetch(raw: Seq<u8>) -> bool {
    raw.len() >= 8 && (raw.subrange(4, 8) == seq![0x53u8, 0x43, 0x43, 0x41] || raw.take(4) == seq![
        0x4Du8,
        0x41,
        0x4D,
        0x04,
    ])
}

/// Tables start with their signature.
pub proof fn law_tables_start_with_their_signature(raw: Seq<u8>)
    ensures
        MftParser.recognizes(raw) == starts_table(raw),
{
    if raw.len() >= 4 {
        let head = raw.take(4);
        assert(head[0] == raw[0] && head[1] == raw[1] && head[2] == raw[2] && head[3] == raw[3]);
        if MftParser.recognizes(raw) {
            assert(head =~= seq![0x46u8, 0x49, 0x4C, 0x45]);
        }
    }
}

/// Prefetch files start with one of their signatures.
pub proof fn law_prefetch_files_start_with_their_signature(raw: Seq<u8>)
    ensures
        PrefetchParser.recognizes(raw) == starts_prefetch(raw),
{
    if raw.len() >= 8 {
        let head = raw.take(4);
        let next = raw.subrange(4, 8);
        assert(head[0] == raw[0] && head[1] == raw[1] && head[2] == raw[2] && head[3] == raw[3]);
        assert(next[0] == raw[4] && next[1] == raw[5] && next[2] == raw[6] && next[3] == raw[7]);
        if raw[0] == 0x4D && raw[1] == 0x41 && raw[2] == 0x4D && raw[3] == 0x04 {
            assert(head =~= seq![0x4Du8, 0x41, 0x4D, 0x04]);
        }
        if raw[4] == 0x53 && raw[5] == 0x43 && raw[6] == 0x43 && raw[7] == 0x41 {
            assert(next =~= seq![0x53u8, 0x43, 0x43, 0x41]);
        }
    }
}

/// Shortcuts start with their signature.
pub proof fn law_shortcuts_start_with_their_signature(raw: Seq<u8>)
    ensures
        LnkParser.recognizes(raw) == starts_shortcut(raw),
{
    let mark = seq![
        0x4Cu8,
        0x00,
        0x00,
        0x00,
        0x01,
        0x14,
        0x02,
        0x00,
        0x00,
        0x00,
        0x00,
        0x00,
        0xC0,
        0x00,
        0x00,
        0x00,
        0x00,
        0x00,
        0x00,
        0x46,
    ];
    assert(HEADER_MAGIC@ =~= mark);
}

/// A file goes to the parser of its signature, shortcuts before logs, these
/// before tables and these before prefetch files; what has none of them goes to
/// none, and has no events.
pub proof fn law_files_go_by_their_signature(
    raw: Seq<u8>,
    file: FileView,
    readings: Seq<time::Moment>,
)
    ensures
        starts_shortcut(raw) ==> collect::routed(raw) == Some(ArtifactSource::Lnk)
            && collect::file_events(raw, file, readings) == LnkParser.timeline(raw, file, readings),
        log::starts_log(raw) && !starts_shortcut(raw) ==> collect::routed(raw) == Some(
            ArtifactSource::Evtx,
        ) && collect::file_events(raw, file, readings) == EvtxParser.timeline(raw, file, readings),
        starts_table(raw) && !starts_shortcut(raw) && !log::starts_log(raw) ==> collect::routed(raw)
            == Some(ArtifactSource::Mft) && collect::file_events(raw, file, readings)
            == MftParser.timeline(raw, file, readings),
        starts_prefetch(raw) && !starts_shortcut(raw) && !log::starts_log(raw) && !starts_table(raw)
            ==> collect::routed(raw) == Some(ArtifactSource::Prefetch) && collect::file_events(
            raw,
            file,
            readings,
        ) == PrefetchParser.timeline(raw, file, readings),
        !starts_shortcut(raw) && !log::starts_log(raw) && !starts_table(raw) && !starts_prefetch(raw)
            ==> collect::routed(raw) is None && collect::file_events(raw, file, readings).len()
            == 0,
{
    law_shortcuts_start_with_their_signature(raw);
    log::law_logs_start_with_their_signature(raw);
    law_tables_start_with_their_signature(raw);
    law_prefetch_files_start_with_their_signature(raw);
}

/// Each parser has a source of its own.
pub proof fn law_parsers_have_their_sources()
    ensures
        LnkParser.source() == ArtifactSource::Lnk,
        EvtxParser.source() == ArtifactSource::Evtx,
        MftParser.source() == ArtifactSource::Mft,
        PrefetchParser.source() == ArtifactSource::Prefetch,
{
}

} // verus!
