//! Artifact parsers: bytes in, timeline events out.

use vstd::prelude::*;

pub mod collect;
pub mod evtx;
pub mod laws;
pub mod lnk;
pub mod mft;
pub mod prefetch;
pub mod reader;
pub mod xpress;

use self::reader::Reader;
use crate::timeline;
use crate::timeline::time;
use crate::timeline::time::{Clock, Timestamp};
use crate::timeline::{ArtifactSource, EventView, TimelineEvent};

verus! {

/// What is known of the file that an artifact was read from.
#[derive(Debug)]
pub struct SourceFile {
    /// The file's path, as it is shown.
    pub path: String,
    /// The name of the file without its extension, where it is text.
    pub stem: Option<String>,
    /// When the file was last modified, where that is known.
    pub modified: Option<Timestamp>,
}

/// What is known of a source file.
pub struct FileView {
    pub path: Seq<char>,
    pub stem: Option<Seq<char>>,
    pub modified: Option<time::Moment>,
}

impl View for SourceFile {
    type V = FileView;

    open spec fn view(&self) -> FileView {
        FileView {
            path: self.path@,
            stem: timeline::text_of(self.stem),
            modified: time::moment_of(self.modified),
        }
    }
}

impl FileView {
    /// The moment of an artifact that holds none itself: when its file was
    /// last modified, else the present.
    pub open spec fn moment(self, now: time::Moment) -> time::Moment {
        match self.modified {
            Some(modified) => modified,
            None => now,
        }
    }
}

impl SourceFile {
    /// The time of an artifact that holds none itself: when its file was last
    /// modified, else the present.
    pub fn moment(&self, clock: &mut Clock) -> (r: Timestamp)
        ensures
            r@ == self@.moment(r@),
            final(clock).asked(
                old(clock),
                if self@.modified is Some {
                    0
                } else {
                    1
                },
            ),
            self@.modified is None ==> final(clock).since(old(clock)) == seq![r@],
    {
        match self.modified {
            Some(modified) => {
                proof {
                    time::lemma_not_asked(*clock);
                }
                modified
            },
            None => {
                let now = clock.now();
                assert(clock.since(old(clock)) =~= seq![now@]);
                now
            },
        }
    }
}

/// The moment of the FILETIME at `offset`, where it is set.
pub open spec fn moment_at(data: Seq<u8>, offset: int) -> Option<time::Moment> {
    match reader::u64_at(data, offset) {
        Some(ft) => time::filetime_moment(ft),
        None => None,
    }
}

/// The timestamp of the FILETIME at `offset`, where it is set.
pub fn read_moment(r: &Reader, offset: usize) -> (t: Option<Timestamp>)
    ensures
        time::moment_of(t) == moment_at(r@, offset as int),
{
    match r.u64(offset) {
        Some(ft) => time::filetime_to_datetime(ft),
        None => None,
    }
}

/// One artifact type's parser: bytes in, zero or more timeline events out.
/// Parsers take any bytes: a corrupt or truncated artifact gives some events
/// or none.
pub trait ArtifactParser {
    /// The source of the parser's events.
    spec fn source(&self) -> ArtifactSource;

    /// Whether bytes have the artifact's signature.
    spec fn recognizes(&self, raw: Seq<u8>) -> bool;

    /// How many of an artifact's events take their moment from the present.
    spec fn presents(&self, raw: Seq<u8>, file: FileView) -> nat;

    /// The events of an artifact. Those that take their moment from the present
    /// take the readings of the clock, one after the other.
    spec fn timeline(&self, raw: Seq<u8>, file: FileView, readings: Seq<time::Moment>) -> Seq<
        EventView,
    >;

    /// The name of the parser's source.
    fn source_name(&self) -> (r: &'static str)
        ensures
            r@ == timeline::source_name(self.source()),
    ;

    /// A cheap signature check, by which a file is routed to the right parser
    /// whatever its extension.
    fn matches(&self, raw: &[u8]) -> (r: bool)
        ensures
            r == self.recognizes(raw@),
    ;

    /// The events of an artifact. The clock is asked once for each event that
    /// takes its moment from the present, and for no other.
    fn parse_with(&self, raw: &[u8], file: &SourceFile, clock: &mut Clock) -> (r: Vec<TimelineEvent>)
        ensures
            final(clock).asked(old(clock), self.presents(raw@, file@)),
            timeline::views(r@) == self.timeline(raw@, file@, final(clock).since(old(clock))),
    ;

    /// The events of an artifact, where `now` is the present.
    fn parse_at(&self, raw: &[u8], file: &SourceFile, now: Timestamp) -> (r: Vec<TimelineEvent>)
        ensures
            timeline::views(r@) == self.timeline(
                raw@,
                file@,
                time::repeated(now@, self.presents(raw@, file@)),
            ),
    {
        let mut clock = Clock::fixed(now);
        self.parse_with(raw, file, &mut clock)
    }

    /// The events of an artifact.
    fn parse(&self, raw: &[u8], file: &SourceFile) -> (r: Vec<TimelineEvent>)
        ensures
            exists|readings: Seq<time::Moment>|
                readings.len() == self.presents(raw@, file@) && time::are_dates(readings)
                    && timeline::views(r@) == #[trigger] self.timeline(raw@, file@, readings),
    {
        let mut clock = Clock::system();
        let ghost before = clock;
        let events = self.parse_with(raw, file, &mut clock);
        proof {
            let readings = clock.since(&before);
            assert(timeline::views(events@) == self.timeline(raw@, file@, readings));
        }
        events
    }
}

} // verus!
