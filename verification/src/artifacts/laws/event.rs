//! What the timeline says of event records.

use vstd::prelude::*;

use super::lnk;
use crate::artifacts::evtx::event;
use crate::text;
use crate::timeline::json;
use crate::timeline::time;
use crate::timeline::ArtifactSource;

verus! {

/// What a record says under a name, nothing where it has no such field.
pub open spec fn said(event: event::EvtxView, key: Seq<char>) -> Seq<char> {
    if event.fields.contains_key(key) {
        event.fields[key]
    } else {
        seq![]
    }
}

/// Whether a provider's name has the word Sysmon in it.
pub open spec fn names_sysmon(provider: Seq<char>) -> bool {
    exists|i: int|
        0 <= i && i + 6 <= provider.len() && #[trigger] provider.subrange(i, i + 6) == "Sysmon"@
}

proof fn lemma_sysmon(event: event::EvtxView)
    ensures
        event::is_sysmon(event) == names_sysmon(event.provider),
{
    reveal_strlit("Sysmon");
    let p = event.provider;
    if event::is_sysmon(event) {
        let i = choose|i: int|
            0 <= i <= p.len() - "Sysmon"@.len() && #[trigger] p.subrange(i, i + "Sysmon"@.len())
                == "Sysmon"@;
        assert(p.subrange(i, i + 6) == "Sysmon"@);
    }
    if names_sysmon(p) {
        let i = choose|i: int|
            0 <= i && i + 6 <= p.len() && #[trigger] p.subrange(i, i + 6) == "Sysmon"@;
        assert(p.subrange(i, i + "Sysmon"@.len()) == "Sysmon"@);
    }
}

proof fn lemma_joined(p: Seq<Seq<char>>)
    ensures
        p.len() == 1 ==> text::concat(p) == p[0],
        p.len() == 2 ==> text::concat(p) == p[0] + p[1],
        p.len() == 3 ==> text::concat(p) == p[0] + p[1] + p[2],
        p.len() == 4 ==> text::concat(p) == p[0] + p[1] + p[2] + p[3],
        p.len() == 5 ==> text::concat(p) == p[0] + p[1] + p[2] + p[3] + p[4],
        p.len() == 6 ==> text::concat(p) == p[0] + p[1] + p[2] + p[3] + p[4] + p[5],
        p.len() == 7 ==> text::concat(p) == p[0] + p[1] + p[2] + p[3] + p[4] + p[5] + p[6],
    decreases p.len(),
{
    if p.len() > 1 {
        lemma_joined(p.drop_last());
    } else if p.len() == 1 {
        assert(text::concat(p.drop_last()) + p[0] =~= p[0]);
    }
}

/// Logons (4624) and failed logons (4625) are described by who logged on, from
/// where, and how or why not.
pub proof fn law_logons_are_described(event: event::EvtxView)
    ensures
        event.event_id == 4624 ==> event::description(event) == "Logon: "@ + said(
            event,
            "TargetUserName"@,
        ) + " (type "@ + said(event, "LogonType"@) + ") from "@ + said(event, "IpAddress"@),
        event.event_id == 4625 ==> event::description(event) == "Failed logon: "@ + said(
            event,
            "TargetUserName"@,
        ) + " from "@ + said(event, "IpAddress"@) + " (status "@ + said(event, "Status"@) + ")"@,
{
    lemma_joined(event::description_parts(event));
}

/// New processes (4688, and Sysmon's 1) are described by their image, their
/// parent and their command line, connections (Sysmon's 3) by their image and
/// where they go.
pub proof fn law_processes_are_described(event: event::EvtxView)
    ensures
        event.event_id == 4688 ==> event::description(event) == "Process created: "@ + said(
            event,
            "NewProcessName"@,
        ) + " (parent "@ + said(event, "ParentProcessName"@) + ") cmd: "@ + said(
            event,
            "CommandLine"@,
        ),
        event.event_id == 1 && names_sysmon(event.provider) ==> event::description(event)
            == "Sysmon process create: "@ + said(event, "Image"@) + " (parent "@ + said(
            event,
            "ParentImage"@,
        ) + ") cmd: "@ + said(event, "CommandLine"@),
        event.event_id == 3 && names_sysmon(event.provider) ==> event::description(event)
            == "Sysmon network connection: "@ + said(event, "Image"@) + " -> "@ + said(
            event,
            "DestinationIp"@,
        ) + ":"@ + said(event, "DestinationPort"@),
{
    lemma_sysmon(event);
    lemma_joined(event::description_parts(event));
}

/// New accounts (4720), new members of privileged groups (4728, 4732, 4756), new
/// services (7045) and new scheduled tasks (4698) are described by their names.
pub proof fn law_changes_of_the_system_are_described(event: event::EvtxView)
    ensures
        event.event_id == 4720 ==> event::description(event) == "User account created: "@ + said(
            event,
            "TargetUserName"@,
        ),
        event.event_id == 4728 || event.event_id == 4732 || event.event_id == 4756
            ==> event::description(event) == "Member added to privileged group "@ + said(
            event,
            "TargetUserName"@,
        ) + ": "@ + said(event, "MemberName"@),
        event.event_id == 7045 ==> event::description(event) == "Service installed: "@ + said(
            event,
            "ServiceName"@,
        ) + " ("@ + said(event, "ImagePath"@) + ")"@,
        event.event_id == 4698 ==> event::description(event) == "Scheduled task created: "@ + said(
            event,
            "TaskName"@,
        ),
{
    lemma_joined(event::description_parts(event));
}

/// Cleared logs (1102, 104) and Kerberos tickets (4769, 4768) are described by
/// who cleared or asked, and tickets by their encryption.
pub proof fn law_cleared_logs_and_tickets_are_described(event: event::EvtxView)
    ensures
        event.event_id == 1102 ==> event::description(event) == "Security audit log cleared by "@
            + said(event, "SubjectUserName"@),
        event.event_id == 104 ==> event::description(event) == "System event log cleared"@,
        event.event_id == 4769 ==> event::description(event)
            == "Kerberos service ticket requested: "@ + said(event, "ServiceName"@) + " by "@
            + said(event, "TargetUserName"@) + " (etype "@ + said(event, "TicketEncryptionType"@)
            + ")"@,
        event.event_id == 4768 ==> event::description(event) == "Kerberos TGT requested by "@
            + said(event, "TargetUserName"@) + " (etype "@ + said(event, "TicketEncryptionType"@)
            + ")"@,
{
    lemma_joined(event::description_parts(event));
}

/// Whether a record has a description of its own.
pub open spec fn is_special(event: event::EvtxView) -> bool {
    let id = event.event_id;
    ||| id == 4624 || id == 4625 || id == 4688 || id == 4720 || id == 4728 || id == 4732
    ||| id == 4756 || id == 7045 || id == 4698 || id == 1102 || id == 104 || id == 4769
    ||| id == 4768
    ||| (id == 1 || id == 3) && names_sysmon(event.provider)
}

/// All other records are described by provider, number and channel.
pub proof fn law_other_records_are_described(event: event::EvtxView)
    requires
        !is_special(event),
    ensures
        event.provider.len() > 0 ==> event::description(event) == event.provider + " event "@
            + text::decimal(event.event_id as nat) + " on "@ + event.channel,
        event.provider.len() == 0 ==> event::description(event) == "Unknown provider"@ + " event "@
            + text::decimal(event.event_id as nat) + " on "@ + event.channel,
{
    lemma_sysmon(event);
    lemma_joined(event::description_parts(event));
}

/// A new process has its image as its target, and a service its program. A
/// record of any other kind has none, and neither has one that leaves it empty.
pub proof fn law_images_are_targets(event: event::EvtxView)
    ensures
        ({
            let id = event.event_id;
            let sysmon = names_sysmon(event.provider) && (id == 1 || id == 3);
            let image = if id == 4688 {
                said(event, "NewProcessName"@)
            } else if id == 7045 {
                said(event, "ImagePath"@)
            } else {
                said(event, "Image"@)
            };
            &&& id == 4688 || id == 7045 || sysmon ==> event::target(event) == if image.len() > 0 {
                Some(image)
            } else {
                None
            }
            &&& id != 4688 && id != 7045 && !sysmon ==> event::target(event) is None
        }),
{
    lemma_sysmon(event);
}

proof fn lemma_keys_differ()
    ensures
        "record_id"@ != "event_id"@,
        "record_id"@ != "channel"@,
        "record_id"@ != "computer"@,
        "record_id"@ != "provider"@,
        "record_id"@ != "user_sid"@,
        "record_id"@ != "process_id"@,
        "record_id"@ != "fields"@,
        "event_id"@ != "channel"@,
        "event_id"@ != "computer"@,
        "event_id"@ != "provider"@,
        "event_id"@ != "user_sid"@,
        "event_id"@ != "process_id"@,
        "event_id"@ != "fields"@,
        "channel"@ != "computer"@,
        "channel"@ != "provider"@,
        "channel"@ != "user_sid"@,
        "channel"@ != "process_id"@,
        "channel"@ != "fields"@,
        "computer"@ != "provider"@,
        "computer"@ != "user_sid"@,
        "computer"@ != "process_id"@,
        "computer"@ != "fields"@,
        "provider"@ != "user_sid"@,
        "provider"@ != "process_id"@,
        "provider"@ != "fields"@,
        "user_sid"@ != "process_id"@,
        "user_sid"@ != "fields"@,
        "process_id"@ != "fields"@,
{
    reveal_strlit("record_id");
    reveal_strlit("event_id");
    reveal_strlit("channel");
    reveal_strlit("computer");
    reveal_strlit("provider");
    reveal_strlit("user_sid");
    reveal_strlit("process_id");
    reveal_strlit("fields");
    assert("record_id"@.len() == 9 && "event_id"@.len() == 8 && "channel"@.len() == 7);
    assert("computer"@.len() == 8 && "provider"@.len() == 8 && "user_sid"@.len() == 8);
    assert("process_id"@.len() == 10 && "fields"@.len() == 6);
    assert("event_id"@[0] == 'e' && "computer"@[0] == 'c' && "provider"@[0] == 'p');
    assert("user_sid"@[0] == 'u');
}

/// The timeline event of a record has the record's time, says its number in its
/// type, and has as extra fields the record's number, event, channel, computer
/// and provider, the user and the process where there are any, and all fields.
pub proof fn law_event_says_what_its_record_says(event: event::EvtxView, path: Seq<char>)
    ensures
        ({
            let r = event::timeline_event(event, path);
            &&& r.timestamp == event.timestamp
            &&& r.source == ArtifactSource::Evtx
            &&& r.event_type == "evtx_event_"@ + text::decimal(event.event_id as nat)
            &&& r.description == event::description(event)
            &&& r.artifact_path == path
            &&& r.target_path == event::target(event)
            &&& r.extra.contains_key("record_id"@)
            &&& r.extra["record_id"@] == json::Json::Number(event.record_id as int)
            &&& r.extra.contains_key("event_id"@)
            &&& r.extra["event_id"@] == json::Json::Number(event.event_id as int)
            &&& lnk::has_text(r, "channel"@, Some(event.channel))
            &&& lnk::has_text(r, "computer"@, Some(event.computer))
            &&& lnk::has_text(r, "provider"@, Some(event.provider))
            &&& lnk::has_text(
                r,
                "user_sid"@,
                if event.user_sid.len() > 0 {
                    Some(event.user_sid)
                } else {
                    None
                },
            )
            &&& r.extra.contains_key("process_id"@) == (event.process_id != 0)
            &&& event.process_id != 0 ==> r.extra["process_id"@] == json::Json::Number(
                event.process_id as int,
            )
        }),
{
    lemma_keys_differ();
}

/// All fields of a record stand as texts in the `fields` of its event.
pub proof fn law_event_has_all_fields(event: event::EvtxView, path: Seq<char>, key: Seq<char>)
    ensures
        ({
            let extra = event::timeline_event(event, path).extra;
            &&& extra.contains_key("fields"@)
            &&& extra["fields"@] matches json::Json::Object(all)
            &&& all.contains_key(key) == event.fields.contains_key(key)
            &&& event.fields.contains_key(key) ==> all[key] == json::Json::Text(event.fields[key])
        }),
{
}

/// What a record's head and fields say is what the record says: its channel,
/// computer, provider and user as they stand, and its event and process as the
/// numbers that their texts are, 0 where they are none.
pub proof fn law_record_says_what_its_fields_say(
    record_id: u64,
    filetime: u64,
    fields: Map<Seq<char>, Seq<char>>,
    now: time::Moment,
    id: u32,
    pid: u32,
)
    ensures
        ({
            let r = event::event_of(record_id, filetime, fields, now);
            &&& r.record_id == record_id
            &&& r.fields == fields
            &&& r.channel == said(r, "Channel"@)
            &&& r.computer == said(r, "Computer"@)
            &&& r.provider == said(r, "Provider"@)
            &&& r.user_sid == said(r, "UserID"@)
            &&& said(r, "EventID"@) == text::decimal(id as nat) ==> r.event_id == id
            &&& said(r, "ProcessID"@) == text::decimal(pid as nat) ==> r.process_id == pid
            &&& text::number(said(r, "EventID"@), 10) is None ==> r.event_id == 0
            &&& text::number(said(r, "ProcessID"@), 10) is None ==> r.process_id == 0
            &&& text::number(said(r, "EventID"@), 10) matches Some(n) ==> r.event_id == n
            &&& text::number(said(r, "ProcessID"@), 10) matches Some(n) ==> r.process_id == n
        }),
{
    text::law_decimal_reads_back(id);
    text::law_decimal_reads_back(pid);
}

/// A record was made when its `TimeCreated` says, whatever its head says, and
/// when its head says where it has no such field or one that is no time.
pub proof fn law_time_created_comes_first(
    record_id: u64,
    filetime: u64,
    fields: Map<Seq<char>, Seq<char>>,
    now: time::Moment,
)
    ensures
        ({
            let made = event::event_of(record_id, filetime, fields, now).timestamp;
            let created = time::rfc3339_parts(fields["TimeCreated"@]);
            let is_said = fields.contains_key("TimeCreated"@) && created is Some;
            let head = time::filetime_moment(filetime);
            &&& is_said ==> made.secs == (created->0).0 && made.nanos == (created->0).1
            &&& !is_said && head is Some ==> made == head->0
            &&& !is_said && head is None ==> made == now
            &&& event::is_dated(fields, filetime) == (is_said || head is Some)
        }),
{
}

} // verus!
