//! Routing: each file goes to the first parser that recognizes it.

use vstd::prelude::*;

use super::evtx;
use super::evtx::EvtxParser;
use super::lnk;
use super::lnk::LnkParser;
use super::mft;
use super::mft::MftParser;
use super::prefetch;
use super::prefetch::PrefetchParser;
use super::{ArtifactParser, FileView, SourceFile};
use crate::timeline;
use crate::timeline::time;
use crate::timeline::time::{Clock, Timestamp};
use crate::timeline::{ArtifactSource, EventView, TimelineEvent};

verus! {

/// Whether a source has a parser, and it recognizes the bytes.
pub open spec fn recognized_as(source: ArtifactSource, raw: Seq<u8>) -> bool {
    match source {
        ArtifactSource::Lnk => LnkParser.recognizes(raw),
        ArtifactSource::Evtx => EvtxParser.recognizes(raw),
        ArtifactSource::Mft => MftParser.recognizes(raw),
        ArtifactSource::Prefetch => PrefetchParser.recognizes(raw),
        ArtifactSource::Registry => false,
        ArtifactSource::Amcache => false,
    }
}

/// The events that a source's parser gives.
pub open spec fn events_as(
    source: ArtifactSource,
    raw: Seq<u8>,
    file: FileView,
    readings: Seq<time::Moment>,
) -> Seq<EventView> {
    match source {
        ArtifactSource::Lnk => LnkParser.timeline(raw, file, readings),
        ArtifactSource::Evtx => EvtxParser.timeline(raw, file, readings),
        ArtifactSource::Mft => MftParser.timeline(raw, file, readings),
        ArtifactSource::Prefetch => PrefetchParser.timeline(raw, file, readings),
        ArtifactSource::Registry => seq![],
        ArtifactSource::Amcache => seq![],
    }
}

/// How many of these events take their moment from the present.
pub open spec fn presents_as(source: ArtifactSource, raw: Seq<u8>, file: FileView) -> nat {
    match source {
        ArtifactSource::Lnk => LnkParser.presents(raw, file),
        ArtifactSource::Evtx => EvtxParser.presents(raw, file),
        ArtifactSource::Mft => MftParser.presents(raw, file),
        ArtifactSource::Prefetch => PrefetchParser.presents(raw, file),
        ArtifactSource::Registry => 0,
        ArtifactSource::Amcache => 0,
    }
}

/// The parser that a file goes to: the first of those for shortcuts, event
/// logs, the Master File Table and prefetch files that recognizes it.
pub open spec fn routed(raw: Seq<u8>) -> Option<ArtifactSource> {
    if recognized_as(ArtifactSource::Lnk, raw) {
        Some(ArtifactSource::Lnk)
    } else if recognized_as(ArtifactSource::Evtx, raw) {
        Some(ArtifactSource::Evtx)
    } else if recognized_as(ArtifactSource::Mft, raw) {
        Some(ArtifactSource::Mft)
    } else if recognized_as(ArtifactSource::Prefetch, raw) {
        Some(ArtifactSource::Prefetch)
    } else {
        None
    }
}

/// The events of a file. Those that take their moment from the present take the
/// readings of the clock, one after the other.
pub open spec fn file_events(raw: Seq<u8>, file: FileView, readings: Seq<time::Moment>) -> Seq<
    EventView,
> {
    match routed(raw) {
        Some(source) => events_as(source, raw, file, readings),
        None => seq![],
    }
}

/// How many events of a file take their moment from the present.
pub open spec fn file_presents(raw: Seq<u8>, file: FileView) -> nat {
    match routed(raw) {
        Some(source) => presents_as(source, raw, file),
        None => 0,
    }
}

/// The parser that a file goes to.
pub fn route(raw: &[u8]) -> (r: Option<ArtifactSource>)
    ensures
        r == routed(raw@),
{
    if LnkParser.matches(raw) {
        Some(ArtifactSource::Lnk)
    } else if EvtxParser.matches(raw) {
        Some(ArtifactSource::Evtx)
    } else if MftParser.matches(raw) {
        Some(ArtifactSource::Mft)
    } else if PrefetchParser.matches(raw) {
        Some(ArtifactSource::Prefetch)
    } else {
        None
    }
}

/// The events of a file. The clock is asked once for each event that takes its
/// moment from the present, and for no other.
pub fn collect_with(raw: &[u8], file: &SourceFile, clock: &mut Clock) -> (r: Vec<TimelineEvent>)
    ensures
        final(clock).asked(old(clock), file_presents(raw@, file@)),
        timeline::views(r@) == file_events(raw@, file@, final(clock).since(old(clock))),
{
    match route(raw) {
        Some(ArtifactSource::Lnk) => LnkParser.parse_with(raw, file, clock),
        Some(ArtifactSource::Evtx) => EvtxParser.parse_with(raw, file, clock),
        Some(ArtifactSource::Mft) => MftParser.parse_with(raw, file, clock),
        Some(ArtifactSource::Prefetch) => PrefetchParser.parse_with(raw, file, clock),
        _ => {
            let none: Vec<TimelineEvent> = Vec::new();
            assert(timeline::views(none@) =~= seq![]);
            proof {
                time::lemma_not_asked(*clock);
            }
            none
        },
    }
}

/// The events of a file, where `now` is the present.
pub fn collect_at(raw: &[u8], file: &SourceFile, now: Timestamp) -> (r: Vec<TimelineEvent>)
    ensures
        timeline::views(r@) == file_events(
            raw@,
            file@,
            time::repeated(now@, file_presents(raw@, file@)),
        ),
{
    let mut clock = Clock::fixed(now);
    collect_with(raw, file, &mut clock)
}

/// The events of a file.
pub fn collect_file(raw: &[u8], file: &SourceFile) -> (r: Vec<TimelineEvent>)
    ensures
        exists|readings: Seq<time::Moment>|
            readings.len() == file_presents(raw@, file@) && time::are_dates(readings)
                && timeline::views(r@) == #[trigger] file_events(raw@, file@, readings),
{
    let mut clock = Clock::system();
    let ghost before = clock;
    let events = collect_with(raw, file, &mut clock);
    proof {
        let readings = clock.since(&before);
        assert(timeline::views(events@) == file_events(raw@, file@, readings));
    }
    events
}

// ---------------------------------------------------------------------
// Laws
// ---------------------------------------------------------------------

/// A parser gives no events for bytes that it does not recognize.
pub proof fn law_unrecognized_gives_nothing(
    source: ArtifactSource,
    raw: Seq<u8>,
    file: FileView,
    readings: Seq<time::Moment>,
)
    requires
        !recognized_as(source, raw),
    ensures
        events_as(source, raw, file, readings).len() == 0,
{
}

/// A file goes to the first parser that recognizes it, and to one if any does.
pub proof fn law_first_parser_wins(raw: Seq<u8>)
    ensures
        routed(raw) matches Some(source) ==> recognized_as(source, raw),
        routed(raw) is None <==> forall|source: ArtifactSource| !recognized_as(source, raw),
        routed(raw) == Some(ArtifactSource::Evtx) ==> !recognized_as(ArtifactSource::Lnk, raw),
        routed(raw) == Some(ArtifactSource::Mft) ==> !recognized_as(ArtifactSource::Lnk, raw)
            && !recognized_as(ArtifactSource::Evtx, raw),
        routed(raw) == Some(ArtifactSource::Prefetch) ==> !recognized_as(ArtifactSource::Lnk, raw)
            && !recognized_as(ArtifactSource::Evtx, raw) && !recognized_as(
            ArtifactSource::Mft,
            raw,
        ),
{
    if routed(raw) is None {
        assert forall|source: ArtifactSource| !recognized_as(source, raw) by {
            match source {
                ArtifactSource::Lnk => {},
                ArtifactSource::Evtx => {},
                ArtifactSource::Mft => {},
                ArtifactSource::Prefetch => {},
                ArtifactSource::Registry => {},
                ArtifactSource::Amcache => {},
            }
        }
    }
}

/// No two parsers recognize the same bytes, but for those of the Master File
/// Table and of prefetch files where "FILE" and "SCCA" follow each other. So
/// the order of the parsers decides nothing else.
pub proof fn law_signatures_are_distinct(a: ArtifactSource, b: ArtifactSource, raw: Seq<u8>)
    requires
        recognized_as(a, raw),
        recognized_as(b, raw),
        !(mft::is_record(raw) && prefetch::is_scca(raw)),
    ensures
        a == b,
{
    if lnk::is_lnk(raw) {
        lnk::lemma_first_bytes(raw);
    }
}

/// Every event of a file is of the source of the parser that the file went to,
/// and of the file's path.
pub proof fn law_events_name_source_and_path(
    raw: Seq<u8>,
    file: FileView,
    readings: Seq<time::Moment>,
)
    ensures
        forall|i: int|
            0 <= i < file_events(raw, file, readings).len() ==> {
                let event = #[trigger] file_events(raw, file, readings)[i];
                routed(raw) == Some(event.source) && event.artifact_path == file.path
            },
{
    if routed(raw) == Some(ArtifactSource::Mft) {
        mft::law_table_events(raw, raw.len() / 1024, file.path);
    } else if routed(raw) == Some(ArtifactSource::Evtx) {
        evtx::law_log_events_name_their_log(raw, evtx::chunk_count(raw), file.path, readings);
    } else if routed(raw) == Some(ArtifactSource::Prefetch) {
        prefetch::law_prefetch_events(raw, file, readings[0]);
    }
}

/// The events of a file depend on as many readings of the clock as events take
/// their moment from the present: on none, where none does.
pub proof fn law_present_is_last_resort(
    raw: Seq<u8>,
    file: FileView,
    a: Seq<time::Moment>,
    b: Seq<time::Moment>,
)
    requires
        file_presents(raw, file) <= a.len(),
        file_presents(raw, file) <= b.len(),
        a.take(file_presents(raw, file) as int) == b.take(file_presents(raw, file) as int),
    ensures
        file_events(raw, file, a) == file_events(raw, file, b),
{
    if file_presents(raw, file) > 0 {
        let n = file_presents(raw, file) as int;
        assert(a[0] == a.take(n)[0]);
        assert(b[0] == b.take(n)[0]);
    }
    if routed(raw) == Some(ArtifactSource::Evtx) {
        evtx::lemma_log_readings(raw, evtx::chunk_count(raw), file.path, a, b);
    }
}

/// The time of a file stands in for the present, but in event logs.
pub proof fn law_file_time_comes_before_present(raw: Seq<u8>, file: FileView)
    requires
        file.modified is Some,
        routed(raw) != Some(ArtifactSource::Evtx),
    ensures
        file_presents(raw, file) == 0,
{
}

} // verus!
