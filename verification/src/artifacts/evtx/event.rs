//! What an event record says, and how it is described.

use vstd::prelude::*;

use super::fields;
use super::fields::FieldMap;
use crate::text;
use crate::timeline;
use crate::timeline::json;
use crate::timeline::time;
use crate::timeline::time::{Clock, Timestamp};
use crate::timeline::{ArtifactSource, EventView, TimelineEvent};

verus! {

/// An event record.
pub struct EvtxEvent {
    pub record_id: u64,
    pub timestamp: Timestamp,
    pub event_id: u32,
    pub channel: String,
    pub computer: String,
    pub provider: String,
    pub user_sid: String,
    pub process_id: u32,
    pub fields: FieldMap,
}

/// What an event record says.
#[verifier::ext_equal]
pub struct EvtxView {
    pub record_id: u64,
    pub timestamp: time::Moment,
    pub event_id: u32,
    pub channel: Seq<char>,
    pub computer: Seq<char>,
    pub provider: Seq<char>,
    pub user_sid: Seq<char>,
    pub process_id: u32,
    pub fields: Map<Seq<char>, Seq<char>>,
}

impl View for EvtxEvent {
    type V = EvtxView;

    open spec fn view(&self) -> EvtxView {
        EvtxView {
            record_id: self.record_id,
            timestamp: self.timestamp@,
            event_id: self.event_id,
            channel: self.channel@,
            computer: self.computer@,
            provider: self.provider@,
            user_sid: self.user_sid@,
            process_id: self.process_id,
            fields: self.fields@,
        }
    }
}

// ---------------------------------------------------------------------
// Decoding
// ---------------------------------------------------------------------

/// The value of a field, empty where there is none.
pub open spec fn field(fields: Map<Seq<char>, Seq<char>>, key: Seq<char>) -> Seq<char> {
    if fields.contains_key(key) {
        fields[key]
    } else {
        seq![]
    }
}

/// The number in a field, 0 where there is none.
pub open spec fn field_number(fields: Map<Seq<char>, Seq<char>>, key: Seq<char>) -> u32 {
    match text::number(field(fields, key), 10) {
        Some(n) => n,
        None => 0,
    }
}

/// Whether a record says when it was made, in its `TimeCreated` or its header.
pub open spec fn is_dated(fields: Map<Seq<char>, Seq<char>>, filetime: u64) -> bool {
    ||| fields.contains_key("TimeCreated"@) && time::rfc3339_parts(fields["TimeCreated"@]) is Some
    ||| time::filetime_moment(filetime) is Some
}

/// How often the clock is asked for a record: once where it does not say when
/// it was made.
pub open spec fn undated(fields: Map<Seq<char>, Seq<char>>, filetime: u64) -> nat {
    if is_dated(fields, filetime) {
        0
    } else {
        1
    }
}

/// When a record was made: as its `TimeCreated` says, else its header, else
/// the present.
pub open spec fn event_moment(
    fields: Map<Seq<char>, Seq<char>>,
    filetime: u64,
    now: time::Moment,
) -> time::Moment {
    let created = "TimeCreated"@;
    if fields.contains_key(created) && time::rfc3339_parts(fields[created]) is Some {
        let (secs, nanos) = time::rfc3339_parts(fields[created])->0;
        time::Moment { secs, nanos }
    } else {
        match time::filetime_moment(filetime) {
            Some(moment) => moment,
            None => now,
        }
    }
}

/// What a record with these fields says.
pub open spec fn event_of(
    record_id: u64,
    filetime: u64,
    fields: Map<Seq<char>, Seq<char>>,
    now: time::Moment,
) -> EvtxView {
    EvtxView {
        record_id,
        timestamp: event_moment(fields, filetime, now),
        event_id: field_number(fields, "EventID"@),
        channel: field(fields, "Channel"@),
        computer: field(fields, "Computer"@),
        provider: field(fields, "Provider"@),
        user_sid: field(fields, "UserID"@),
        process_id: field_number(fields, "ProcessID"@),
        fields,
    }
}

fn get_field<'a>(fields: &'a FieldMap, key: &str) -> (r: &'a str)
    ensures
        r@ == field(fields@, key@),
{
    match fields.get(key) {
        Some(value) => value,
        None => {
            proof {
                reveal_strlit("");
            }
            ""
        },
    }
}

fn get_number(fields: &FieldMap, key: &str) -> (r: u32)
    ensures
        r == field_number(fields@, key@),
{
    let digits = text::chars_of(get_field(fields, key));
    match text::parse_number(&digits, 10) {
        Some(n) => n,
        None => 0,
    }
}

fn get_timestamp(fields: &FieldMap, filetime: u64, clock: &mut Clock) -> (r: Timestamp)
    ensures
        r@ == event_moment(fields@, filetime, r@),
        final(clock).asked(old(clock), undated(fields@, filetime)),
        !is_dated(fields@, filetime) ==> final(clock).since(old(clock)) == seq![r@],
{
    proof {
        time::lemma_not_asked(*clock);
    }
    if let Some(created) = fields.get("TimeCreated") {
        if let Some(timestamp) = Timestamp::parse_from_rfc3339(created) {
            return timestamp;
        }
    }
    match time::filetime_to_datetime(filetime) {
        Some(timestamp) => timestamp,
        None => {
            let now = clock.now();
            assert(clock.since(old(clock)) =~= seq![now@]);
            now
        },
    }
}

/// What a record with these fields says.
pub fn decode_fields(record_id: u64, filetime: u64, fields: FieldMap, clock: &mut Clock) -> (r:
    EvtxEvent)
    ensures
        r@ == event_of(record_id, filetime, fields@, r@.timestamp),
        final(clock).asked(old(clock), undated(fields@, filetime)),
        !is_dated(fields@, filetime) ==> final(clock).since(old(clock)) == seq![r@.timestamp],
{
    EvtxEvent {
        record_id,
        timestamp: get_timestamp(&fields, filetime, clock),
        event_id: get_number(&fields, "EventID"),
        channel: get_field(&fields, "Channel").to_string(),
        computer: get_field(&fields, "Computer").to_string(),
        provider: get_field(&fields, "Provider").to_string(),
        user_sid: get_field(&fields, "UserID").to_string(),
        process_id: get_number(&fields, "ProcessID"),
        fields,
    }
}

// ---------------------------------------------------------------------
// Description: the event numbers that matter most on an incident timeline
// have one of their own, all others a general one.
// ---------------------------------------------------------------------

/// Whether a record is Sysmon's.
pub open spec fn is_sysmon(event: EvtxView) -> bool {
    text::has_infix(event.provider, "Sysmon"@)
}

/// The description of a record, in parts.
pub open spec fn description_parts(event: EvtxView) -> Seq<Seq<char>> {
    let id = event.event_id;
    let f = event.fields;
    if id == 4624 {
        seq![
            "Logon: "@,
            field(f, "TargetUserName"@),
            " (type "@,
            field(f, "LogonType"@),
            ") from "@,
            field(f, "IpAddress"@),
        ]
    } else if id == 4625 {
        seq![
            "Failed logon: "@,
            field(f, "TargetUserName"@),
            " from "@,
            field(f, "IpAddress"@),
            " (status "@,
            field(f, "Status"@),
            ")"@,
        ]
    } else if id == 4688 {
        seq![
            "Process created: "@,
            field(f, "NewProcessName"@),
            " (parent "@,
            field(f, "ParentProcessName"@),
            ") cmd: "@,
            field(f, "CommandLine"@),
        ]
    } else if id == 1 && is_sysmon(event) {
        seq![
            "Sysmon process create: "@,
            field(f, "Image"@),
            " (parent "@,
            field(f, "ParentImage"@),
            ") cmd: "@,
            field(f, "CommandLine"@),
        ]
    } else if id == 3 && is_sysmon(event) {
        seq![
            "Sysmon network connection: "@,
            field(f, "Image"@),
            " -> "@,
            field(f, "DestinationIp"@),
            ":"@,
            field(f, "DestinationPort"@),
        ]
    } else if id == 4720 {
        seq!["User account created: "@, field(f, "TargetUserName"@)]
    } else if id == 4728 || id == 4732 || id == 4756 {
        seq![
            "Member added to privileged group "@,
            field(f, "TargetUserName"@),
            ": "@,
            field(f, "MemberName"@),
        ]
    } else if id == 7045 {
        seq![
            "Service installed: "@,
            field(f, "ServiceName"@),
            " ("@,
            field(f, "ImagePath"@),
            ")"@,
        ]
    } else if id == 4698 {
        seq!["Scheduled task created: "@, field(f, "TaskName"@)]
    } else if id == 1102 {
        seq!["Security audit log cleared by "@, field(f, "SubjectUserName"@)]
    } else if id == 104 {
        seq!["System event log cleared"@]
    } else if id == 4769 {
        seq![
            "Kerberos service ticket requested: "@,
            field(f, "ServiceName"@),
            " by "@,
            field(f, "TargetUserName"@),
            " (etype "@,
            field(f, "TicketEncryptionType"@),
            ")"@,
        ]
    } else if id == 4768 {
        seq![
            "Kerberos TGT requested by "@,
            field(f, "TargetUserName"@),
            " (etype "@,
            field(f, "TicketEncryptionType"@),
            ")"@,
        ]
    } else {
        seq![
            if event.provider.len() == 0 {
                "Unknown provider"@
            } else {
                event.provider
            },
            " event "@,
            text::decimal(id as nat),
            " on "@,
            event.channel,
        ]
    }
}

/// The description of a record.
pub open spec fn description(event: EvtxView) -> Seq<char> {
    text::concat(description_parts(event))
}

/// The field that names a record's target.
pub open spec fn target_key(event: EvtxView) -> Option<Seq<char>> {
    let id = event.event_id;
    if id == 4688 {
        Some("NewProcessName"@)
    } else if (id == 1 || id == 3) && is_sysmon(event) {
        Some("Image"@)
    } else if id == 7045 {
        Some("ImagePath"@)
    } else {
        None
    }
}

/// The target of a record.
pub open spec fn target(event: EvtxView) -> Option<Seq<char>> {
    match target_key(event) {
        Some(key) => if field(event.fields, key).len() > 0 {
            Some(field(event.fields, key))
        } else {
            None
        },
        None => None,
    }
}

fn describe_parts<'a>(event: &'a EvtxEvent, id_text: &'a str) -> (r: Vec<&'a str>)
    requires
        id_text@ == text::decimal(event.event_id as nat),
    ensures
        text::slices(r@) == description_parts(event@),
{
    let f = &event.fields;
    let id: u32 = event.event_id;
    let r = match id {
        4624 => vec![
            "Logon: ",
            get_field(f, "TargetUserName"),
            " (type ",
            get_field(f, "LogonType"),
            ") from ",
            get_field(f, "IpAddress"),
        ],
        4625 => vec![
            "Failed logon: ",
            get_field(f, "TargetUserName"),
            " from ",
            get_field(f, "IpAddress"),
            " (status ",
            get_field(f, "Status"),
            ")",
        ],
        4688 => vec![
            "Process created: ",
            get_field(f, "NewProcessName"),
            " (parent ",
            get_field(f, "ParentProcessName"),
            ") cmd: ",
            get_field(f, "CommandLine"),
        ],
        4720 => vec!["User account created: ", get_field(f, "TargetUserName")],
        4728 | 4732 | 4756 => vec![
            "Member added to privileged group ",
            get_field(f, "TargetUserName"),
            ": ",
            get_field(f, "MemberName"),
        ],
        7045 => vec![
            "Service installed: ",
            get_field(f, "ServiceName"),
            " (",
            get_field(f, "ImagePath"),
            ")",
        ],
        4698 => vec!["Scheduled task created: ", get_field(f, "TaskName")],
        1102 => vec!["Security audit log cleared by ", get_field(f, "SubjectUserName")],
        104 => vec!["System event log cleared"],
        4769 => vec![
            "Kerberos service ticket requested: ",
            get_field(f, "ServiceName"),
            " by ",
            get_field(f, "TargetUserName"),
            " (etype ",
            get_field(f, "TicketEncryptionType"),
            ")",
        ],
        4768 => vec![
            "Kerberos TGT requested by ",
            get_field(f, "TargetUserName"),
            " (etype ",
            get_field(f, "TicketEncryptionType"),
            ")",
        ],
        _ => {
            let sysmon = (id == 1 || id == 3) && text::contains_text(
                event.provider.as_str(),
                "Sysmon",
            );
            if sysmon && id == 1 {
                vec![
                    "Sysmon process create: ",
                    get_field(f, "Image"),
                    " (parent ",
                    get_field(f, "ParentImage"),
                    ") cmd: ",
                    get_field(f, "CommandLine"),
                ]
            } else if sysmon {
                vec![
                    "Sysmon network connection: ",
                    get_field(f, "Image"),
                    " -> ",
                    get_field(f, "DestinationIp"),
                    ":",
                    get_field(f, "DestinationPort"),
                ]
            } else {
                let provider = if event.provider.as_str().is_empty() {
                    "Unknown provider"
                } else {
                    event.provider.as_str()
                };
                vec![provider, " event ", id_text, " on ", event.channel.as_str()]
            }
        },
    };
    assert(text::slices(r@) =~= description_parts(event@));
    r
}

fn find_target(event: &EvtxEvent) -> (r: Option<String>)
    ensures
        timeline::text_of(r) == target(event@),
{
    let id: u32 = event.event_id;
    let key = if id == 4688 {
        "NewProcessName"
    } else if (id == 1 || id == 3) && text::contains_text(event.provider.as_str(), "Sysmon") {
        "Image"
    } else if id == 7045 {
        "ImagePath"
    } else {
        return None;
    };
    let value = get_field(&event.fields, key);
    if value.is_empty() {
        None
    } else {
        Some(value.to_string())
    }
}

/// The description and the target of a record.
pub fn describe(event: &EvtxEvent) -> (r: (String, Option<String>))
    ensures
        r.0@ == description(event@),
        timeline::text_of(r.1) == target(event@),
{
    let id_text = text::decimal_text(event.event_id as u64);
    let parts = describe_parts(event, id_text.as_str());
    (text::concat_text(&parts), find_target(event))
}

// ---------------------------------------------------------------------
// The timeline event of a record
// ---------------------------------------------------------------------

/// The timeline event of a record.
pub open spec fn timeline_event(event: EvtxView, path: Seq<char>) -> EventView {
    let base = EventView::new(
        event.timestamp,
        ArtifactSource::Evtx,
        "evtx_event_"@ + text::decimal(event.event_id as nat),
        description(event),
        path,
    ).with_number("record_id"@, event.record_id as int).with_number(
        "event_id"@,
        event.event_id as int,
    ).with_text("channel"@, event.channel).with_text("computer"@, event.computer).with_text(
        "provider"@,
        event.provider,
    );
    let aimed = match target(event) {
        Some(target) => base.with_target(target),
        None => base,
    };
    let signed = if event.user_sid.len() > 0 {
        aimed.with_text("user_sid"@, event.user_sid)
    } else {
        aimed
    };
    let run = if event.process_id != 0 {
        signed.with_number("process_id"@, event.process_id as int)
    } else {
        signed
    };
    run.with_extra("fields"@, json::Json::Object(fields::as_json(event.fields)))
}

/// The timeline event of a record.
pub fn build_event(event: &EvtxEvent, path: &String) -> (r: TimelineEvent)
    ensures
        r@ == timeline_event(event@, path@),
{
    let (description, target) = describe(event);
    let mut event_type = "evtx_event_".to_string();
    text::push_decimal(&mut event_type, event.event_id as u64);
    let mut r = TimelineEvent::new(
        event.timestamp,
        ArtifactSource::Evtx,
        event_type.as_str(),
        description,
        path.clone(),
    ).with_number("record_id", event.record_id).with_number(
        "event_id",
        event.event_id as u64,
    ).with_text("channel", event.channel.clone()).with_text(
        "computer",
        event.computer.clone(),
    ).with_text("provider", event.provider.clone());
    if let Some(target) = target {
        r = r.with_target(target);
    }
    if !event.user_sid.as_str().is_empty() {
        r = r.with_text("user_sid", event.user_sid.clone());
    }
    if event.process_id != 0 {
        r = r.with_number("process_id", event.process_id as u64);
    }
    r.with_extra("fields", json::object(event.fields.to_json()))
}

/// The number of an event is the one that its `EventID` was given as.
pub proof fn law_event_id_reads_back(
    record_id: u64,
    filetime: u64,
    fields: Map<Seq<char>, Seq<char>>,
    now: time::Moment,
    id: u32,
)
    requires
        fields.contains_key("EventID"@),
        fields["EventID"@] == text::decimal(id as nat),
    ensures
        event_of(record_id, filetime, fields, now).event_id == id,
{
    text::law_decimal_reads_back(id);
}

/// What a record with a time of its own says does not depend on the present.
pub proof fn law_dated_record_ignores_present(
    record_id: u64,
    filetime: u64,
    fields: Map<Seq<char>, Seq<char>>,
    now: time::Moment,
    later: time::Moment,
)
    requires
        is_dated(fields, filetime),
    ensures
        event_of(record_id, filetime, fields, now) == event_of(record_id, filetime, fields, later),
{
}

} // verus!
