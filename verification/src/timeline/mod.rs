//! The unified event model. Every artifact parser puts its findings into
//! [`TimelineEvent`]s, so that they can be merged, sorted and exported in one
//! way, whatever artifact they come from.

use vstd::prelude::*;

pub mod json;
pub mod time;
pub mod writer;

use time::Timestamp;

verus! {

/// The kinds of artifact that events come from.
#[derive(Debug, Clone, Copy, PartialEq, Eq, Structural)]
pub enum ArtifactSource {
    Lnk,
    Prefetch,
    Evtx,
    Mft,
    Registry,
    Amcache,
}

/// The name of a source in exported timelines.
pub open spec fn source_name(source: ArtifactSource) -> Seq<char> {
    match source {
        ArtifactSource::Lnk => "lnk"@,
        ArtifactSource::Prefetch => "prefetch"@,
        ArtifactSource::Evtx => "evtx"@,
        ArtifactSource::Mft => "mft"@,
        ArtifactSource::Registry => "registry"@,
        ArtifactSource::Amcache => "amcache"@,
    }
}

impl ArtifactSource {
    /// The name of the source in exported timelines.
    pub fn as_str(&self) -> (r: &'static str)
        ensures
            r@ == source_name(*self),
    {
        match self {
            ArtifactSource::Lnk => "lnk",
            ArtifactSource::Prefetch => "prefetch",
            ArtifactSource::Evtx => "evtx",
            ArtifactSource::Mft => "mft",
            ArtifactSource::Registry => "registry",
            ArtifactSource::Amcache => "amcache",
        }
    }
}

/// Two sources with one name are the same source.
pub proof fn law_source_names_are_distinct(a: ArtifactSource, b: ArtifactSource)
    ensures
        source_name(a) == source_name(b) ==> a == b,
{
    reveal_strlit("lnk");
    reveal_strlit("prefetch");
    reveal_strlit("evtx");
    reveal_strlit("mft");
    reveal_strlit("registry");
    reveal_strlit("amcache");
    let x = source_name(a);
    let y = source_name(b);
    if x == y {
        assert(x[0] == y[0] && x.len() == y.len() && x[1] == y[1]);
    }
}

/// One point on the host's timeline.
///
/// `timestamp` is always UTC: parsers convert whatever clock their format
/// uses before they make the event.
#[derive(Debug)]
pub struct TimelineEvent {
    pub timestamp: Timestamp,
    pub source: ArtifactSource,
    pub event_type: String,
    pub description: String,
    pub artifact_path: String,
    pub target_path: Option<String>,
    /// The fields of one format that have no place in the common schema,
    /// such as the run count of a prefetch file.
    pub extra: serde_json::Map<String, serde_json::Value>,
}

/// What an event says.
#[verifier::ext_equal]
pub struct EventView {
    pub timestamp: time::Moment,
    pub source: ArtifactSource,
    pub event_type: Seq<char>,
    pub description: Seq<char>,
    pub artifact_path: Seq<char>,
    pub target_path: Option<Seq<char>>,
    pub extra: Map<Seq<char>, json::Json>,
}

/// The characters of a string that may be missing.
pub open spec fn text_of(s: Option<String>) -> Option<Seq<char>> {
    match s {
        Some(s) => Some(s@),
        None => None,
    }
}

impl View for TimelineEvent {
    type V = EventView;

    open spec fn view(&self) -> EventView {
        EventView {
            timestamp: self.timestamp@,
            source: self.source,
            event_type: self.event_type@,
            description: self.description@,
            artifact_path: self.artifact_path@,
            target_path: text_of(self.target_path),
            extra: json::entries(self.extra),
        }
    }
}

impl Clone for TimelineEvent {
    fn clone(&self) -> (r: TimelineEvent)
        ensures
            r@ == self@,
    {
        let target_path = match &self.target_path {
            Some(target) => Some(target.clone()),
            None => None,
        };
        TimelineEvent {
            timestamp: self.timestamp,
            source: self.source,
            event_type: self.event_type.clone(),
            description: self.description.clone(),
            artifact_path: self.artifact_path.clone(),
            target_path,
            extra: json::map_clone(&self.extra),
        }
    }
}

/// What each of a list of events says.
pub open spec fn views(events: Seq<TimelineEvent>) -> Seq<EventView> {
    Seq::new(events.len(), |i: int| events[i]@)
}

impl EventView {
    /// An event with no target and no extra fields.
    pub open spec fn new(
        timestamp: time::Moment,
        source: ArtifactSource,
        event_type: Seq<char>,
        description: Seq<char>,
        artifact_path: Seq<char>,
    ) -> EventView {
        EventView {
            timestamp,
            source,
            event_type,
            description,
            artifact_path,
            target_path: None,
            extra: json::no_entries(),
        }
    }

    /// The event with a target.
    pub open spec fn with_target(self, target: Seq<char>) -> EventView {
        EventView { target_path: Some(target), ..self }
    }

    /// The event with an extra field.
    pub open spec fn with_extra(self, key: Seq<char>, value: json::Json) -> EventView {
        EventView { extra: self.extra.insert(key, value), ..self }
    }

    /// The event with a number as an extra field.
    pub open spec fn with_number(self, key: Seq<char>, n: int) -> EventView {
        self.with_extra(key, json::Json::Number(n))
    }

    /// The event with a flag as an extra field.
    pub open spec fn with_flag(self, key: Seq<char>, b: bool) -> EventView {
        self.with_extra(key, json::Json::Flag(b))
    }

    /// The event with a text as an extra field.
    pub open spec fn with_text(self, key: Seq<char>, text: Seq<char>) -> EventView {
        self.with_extra(key, json::Json::Text(text))
    }

    /// The event with a text as an extra field, if there is one.
    pub open spec fn with_text_of(self, key: Seq<char>, text: Option<Seq<char>>) -> EventView {
        match text {
            Some(text) => self.with_text(key, text),
            None => self,
        }
    }
}

impl TimelineEvent {
    /// An event with no target and no extra fields.
    pub fn new(
        timestamp: Timestamp,
        source: ArtifactSource,
        event_type: &str,
        description: String,
        artifact_path: String,
    ) -> (r: TimelineEvent)
        ensures
            r@ == EventView::new(
                timestamp@,
                source,
                event_type@,
                description@,
                artifact_path@,
            ),
    {
        TimelineEvent {
            timestamp,
            source,
            event_type: event_type.to_string(),
            description,
            artifact_path,
            target_path: None,
            extra: json::new_map(),
        }
    }

    /// The event with a target.
    pub fn with_target(self, target: String) -> (r: TimelineEvent)
        ensures
            r@ == self@.with_target(target@),
    {
        TimelineEvent { target_path: Some(target), ..self }
    }

    /// The event with an extra field.
    pub fn with_extra(self, key: &str, value: serde_json::Value) -> (r: TimelineEvent)
        ensures
            r@ == self@.with_extra(key@, json::json_view(value)),
    {
        let mut event = self;
        json::map_insert(&mut event.extra, key.to_string(), value);
        event
    }

    /// The event with a number as an extra field.
    pub fn with_number(self, key: &str, n: u64) -> (r: TimelineEvent)
        ensures
            r@ == self@.with_number(key@, n as int),
    {
        self.with_extra(key, json::number(n))
    }

    /// The event with a flag as an extra field.
    pub fn with_flag(self, key: &str, b: bool) -> (r: TimelineEvent)
        ensures
            r@ == self@.with_flag(key@, b),
    {
        self.with_extra(key, json::flag(b))
    }

    /// The event with a text as an extra field.
    pub fn with_text(self, key: &str, text: String) -> (r: TimelineEvent)
        ensures
            r@ == self@.with_text(key@, text@),
    {
        self.with_extra(key, json::text(text))
    }

    /// The event with a text as an extra field, if there is one.
    pub fn with_text_of(self, key: &str, text: Option<String>) -> (r: TimelineEvent)
        ensures
            r@ == self@.with_text_of(key@, text_of(text)),
    {
        match text {
            Some(text) => self.with_text(key, text),
            None => self,
        }
    }
}

/// The last value that an extra field was given is the one it has, and giving
/// it one changes no other field.
pub proof fn law_extra_reads_back(event: EventView, key: Seq<char>, value: json::Json, other: Seq<char>)
    ensures
        event.with_extra(key, value).extra.contains_key(key),
        event.with_extra(key, value).extra[key] == value,
        other != key ==> event.with_extra(key, value).extra.contains_key(other)
            == event.extra.contains_key(other),
        other != key && event.extra.contains_key(other) ==> event.with_extra(key, value).extra[other]
            == event.extra[other],
{
}

/// The sources have their names.
pub proof fn law_sources_have_their_names()
    ensures
        source_name(ArtifactSource::Lnk) == "lnk"@,
        source_name(ArtifactSource::Prefetch) == "prefetch"@,
        source_name(ArtifactSource::Evtx) == "evtx"@,
        source_name(ArtifactSource::Mft) == "mft"@,
        source_name(ArtifactSource::Registry) == "registry"@,
        source_name(ArtifactSource::Amcache) == "amcache"@,
{
}

/// A new event has what it was made of and no more. A target and extra fields
/// leave all else as it is.
pub proof fn law_new_event_is_bare(
    timestamp: time::Moment,
    source: ArtifactSource,
    event_type: Seq<char>,
    description: Seq<char>,
    path: Seq<char>,
    target: Seq<char>,
    key: Seq<char>,
    value: json::Json,
)
    ensures
        ({
            let event = EventView::new(timestamp, source, event_type, description, path);
            let aimed = event.with_target(target);
            let more = aimed.with_extra(key, value);
            &&& event.timestamp == timestamp
            &&& event.source == source
            &&& event.event_type == event_type
            &&& event.description == description
            &&& event.artifact_path == path
            &&& event.target_path is None
            &&& forall|k: Seq<char>| !#[trigger] event.extra.contains_key(k)
            &&& aimed.target_path == Some(target)
            &&& aimed.timestamp == timestamp && aimed.source == source
            &&& aimed.event_type == event_type && aimed.description == description
            &&& aimed.artifact_path == path && aimed.extra == event.extra
            &&& more.target_path == Some(target)
            &&& more.timestamp == timestamp && more.source == source
            &&& more.event_type == event_type && more.description == description
            &&& more.artifact_path == path
        }),
{
}

/// Numbers, flags and texts are extra fields of their kind, and a text that is
/// missing is none.
pub proof fn law_extra_fields_have_their_kind(
    event: EventView,
    key: Seq<char>,
    n: int,
    b: bool,
    text: Seq<char>,
)
    ensures
        event.with_number(key, n).extra[key] == json::Json::Number(n),
        event.with_flag(key, b).extra[key] == json::Json::Flag(b),
        event.with_text(key, text).extra[key] == json::Json::Text(text),
        event.with_text_of(key, Some(text)) == event.with_text(key, text),
        event.with_text_of(key, None) == event,
{
}

} // verus!
