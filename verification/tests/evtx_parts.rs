use chronoscope::artifacts::evtx::event::{build_event, decode_fields, describe};
use chronoscope::artifacts::evtx::fields::FieldMap;
use chronoscope::artifacts::evtx::values::{
    binxml_name, decode_value, parse_sid, read_typed_value, VT_BINARY, VT_BOOL, VT_FILETIME,
    VT_GUID, VT_HEX32, VT_HEX64, VT_NULL, VT_SID, VT_STR, VT_SYSTEMTIME, VT_U16, VT_U32, VT_U64,
    VT_U8, VT_WSTR,
};
use chronoscope::artifacts::evtx::EvtxEvent;
use chronoscope::artifacts::reader::Cursor;
use chronoscope::timeline::time::{Clock, Timestamp};
use chronoscope::timeline::ArtifactSource;

fn now() -> Clock {
    Clock::fixed(Timestamp::new(99, 0).expect("a moment"))
}

fn fields(pairs: &[(&str, &str)]) -> FieldMap {
    let mut map = FieldMap::new();
    for (k, v) in pairs {
        map.insert(k.to_string(), v.to_string());
    }
    map
}

fn event(pairs: &[(&str, &str)]) -> EvtxEvent {
    decode_fields(7, 0, fields(pairs), &mut now())
}

// ---------------------------------------------------------------------
// Field maps
// ---------------------------------------------------------------------

#[test]
fn fields_are_kept_by_name() {
    let mut map = fields(&[("a", "1"), ("b", "2")]);
    assert_eq!(map.len(), 2);
    assert_eq!(map.get("a"), Some("1"));
    assert_eq!(map.get("c"), None);
    map.insert("a".to_string(), "3".to_string());
    assert_eq!(map.len(), 2);
    assert_eq!(map.get("a"), Some("3"));
    map.insert_missing("a".to_string(), "4".to_string());
    map.insert_missing("c".to_string(), "5".to_string());
    assert_eq!(map.get("a"), Some("3"));
    assert_eq!(map.get("c"), Some("5"));
    assert_eq!(map.remove("b").as_deref(), Some("2"));
    assert_eq!(map.remove("b"), None);
    assert_eq!(map.get("b"), None);
    assert_eq!(map.get("c"), Some("5"));
    assert_eq!(map.len(), 2);
}

#[test]
fn missing_fields_are_added_and_cut() {
    let mut map = fields(&[("a", "1")]);
    map.add_missing(&fields(&[("a", "xyz"), ("b", "xyz")]), 2);
    assert_eq!(map.get("a"), Some("1"));
    assert_eq!(map.get("b"), Some("xy"));
    assert_eq!(map.len(), 2);
}

#[test]
fn fields_become_a_json_object() {
    let json = fields(&[("a", "1"), ("b", "2")]).to_json();
    assert_eq!(json.len(), 2);
    assert_eq!(json.get("a").and_then(|v| v.as_str()), Some("1"));
    assert_eq!(json.get("b").and_then(|v| v.as_str()), Some("2"));
    assert!(FieldMap::new().to_json().is_empty());
}

// ---------------------------------------------------------------------
// Values
// ---------------------------------------------------------------------

#[test]
fn values_have_their_texts() {
    assert_eq!(decode_value(&[0x41, 0, 0xAC, 0x20], VT_WSTR), "A€");
    assert_eq!(decode_value(b"abc", VT_STR), "abc");
    assert_eq!(decode_value(&[200], VT_U8), "200");
    assert_eq!(decode_value(&[0x10, 0x12], VT_U16), "4624");
    assert_eq!(decode_value(&[0xFF; 4], VT_U32), "4294967295");
    assert_eq!(decode_value(&[0xFF; 8], VT_U64), "18446744073709551615");
    assert_eq!(decode_value(&[0xEF, 0xBE, 0xAD, 0x0E], VT_HEX32), "0x0eadbeef");
    assert_eq!(decode_value(&[1, 0, 0, 0, 0, 0, 0, 0xA0], VT_HEX64), "0xa000000000000001");
    assert_eq!(decode_value(&[1, 0, 0, 0], VT_BOOL), "true");
    assert_eq!(decode_value(&[0, 0, 0, 0], VT_BOOL), "false");
    assert_eq!(decode_value(&[1, 0xAB], VT_BINARY), "01ab");
    assert_eq!(decode_value(&[], VT_BINARY), "");
}

#[test]
fn values_that_are_cut_off_or_unknown_are_in_hexadecimal() {
    assert_eq!(decode_value(&[], VT_U8), "");
    assert_eq!(decode_value(&[0x10], VT_U16), "10");
    assert_eq!(decode_value(&[1, 2, 3], VT_U32), "010203");
    assert_eq!(decode_value(&[1, 2, 3], VT_BOOL), "010203");
    assert_eq!(decode_value(&[1; 7], VT_FILETIME), "01010101010101");
    assert_eq!(decode_value(&[1; 15], VT_GUID), "010101010101010101010101010101");
    assert_eq!(decode_value(&[0xFE], 0x77), "fe");
    assert_eq!(decode_value(&[0xFE], VT_NULL), "fe");
}

#[test]
fn times_have_their_texts() {
    let ft: u64 = 116_444_736_000_000_000 + 1_717_200_000 * 10_000_000;
    let text = decode_value(&ft.to_le_bytes(), VT_FILETIME);
    assert_eq!(text, "2024-06-01T00:00:00+00:00");
    let back = Timestamp::parse_from_rfc3339(&text).expect("a moment");
    assert_eq!(back.timestamp(), 1_717_200_000);
    assert_eq!(decode_value(&[0; 8], VT_FILETIME), "1601-01-01T00:00:00Z");
    let st = [0xE8, 7, 6, 0, 9, 9, 1, 0, 2, 0, 30, 0, 59, 0, 9, 9];
    assert_eq!(decode_value(&st, VT_SYSTEMTIME), "2024-06-01T02:30:59Z");
}

#[test]
fn identifiers_have_their_texts() {
    let guid: Vec<u8> = (1..=16).collect();
    assert_eq!(decode_value(&guid, VT_GUID), "{04030201-0605-0807-090A-0B0C0D0E}");
    let sid = [1, 2, 0, 0, 0, 0, 0, 5, 32, 0, 0, 0, 0x20, 2, 0, 0];
    assert_eq!(parse_sid(&sid), "S-1-5-32-544");
    assert_eq!(decode_value(&sid, VT_SID), "S-1-5-32-544");
    assert_eq!(parse_sid(&sid[0..15]), "");
    assert_eq!(parse_sid(&sid[0..7]), "");
    assert_eq!(parse_sid(&[1, 0, 1, 0, 0, 0, 0, 0]), "S-1-1099511627776-");
}

#[test]
fn stream_values_take_their_bytes() {
    let sid = [1, 1, 0, 0, 0, 0, 0, 5, 18, 0, 0, 0];
    let cases: Vec<(u8, Vec<u8>, &str)> = vec![
        (VT_NULL, vec![], ""),
        (VT_WSTR, vec![2, 0, 0x41, 0, 0x42, 0], "AB"),
        (VT_STR, vec![3, 0, b'x', b'y', b'z'], "xyz"),
        (VT_U8, vec![9], "9"),
        (VT_U16, vec![9, 0], "9"),
        (VT_U32, vec![9, 0, 0, 0], "9"),
        (VT_U64, vec![9, 0, 0, 0, 0, 0, 0, 0], "9"),
        (VT_HEX32, vec![9, 0, 0, 0], "0x00000009"),
        (VT_HEX64, vec![9, 0, 0, 0, 0, 0, 0, 0], "0x0000000000000009"),
        (VT_BOOL, vec![0, 0, 0, 1], "true"),
        (VT_BINARY, vec![2, 0, 0xAA, 0xBB], "aabb"),
        (VT_FILETIME, vec![0; 8], "1601-01-01T00:00:00Z"),
        (VT_SID, sid.to_vec(), "S-1-5-18"),
        (VT_SYSTEMTIME, vec![0; 16], "0000-00-00T00:00:00Z"),
        (0x77, vec![], ""),
    ];
    for (vtype, bytes, text) in cases {
        let mut data = bytes.clone();
        data.push(0xEE);
        let mut r = Cursor::new(&data);
        assert_eq!(read_typed_value(&mut r, vtype), text);
        assert_eq!(r.pos, bytes.len());
    }
}

#[test]
fn stream_values_that_are_cut_off_are_empty() {
    for (vtype, data, pos) in [
        (VT_WSTR, vec![1u8], 0usize),
        (VT_WSTR, vec![2, 0, 0x41, 0], 2),
        (VT_STR, vec![9, 0, b'x'], 2),
        (VT_U32, vec![1, 2, 3], 0),
        (VT_GUID, vec![1; 15], 0),
        (VT_SID, vec![1], 0),
        (VT_SID, vec![1, 1, 0, 0, 0, 0, 0, 5], 0),
        (VT_BINARY, vec![1, 0], 2),
    ] {
        let mut r = Cursor::new(&data);
        assert_eq!(read_typed_value(&mut r, vtype), "");
        assert_eq!(r.pos, pos);
    }
}

#[test]
fn names_are_read_where_they_stand() {
    let mut data = vec![0xCC, 0, 0, 0, 0, 0, 0, 2, 0, b'I', 0, b'd', 0, 0, 0];
    assert_eq!(binxml_name(&data, 1), "Id");
    assert_eq!(binxml_name(&data, 100), "");
    assert_eq!(binxml_name(&data, usize::MAX), "");
    data[7] = 200;
    assert_eq!(binxml_name(&data, 1), "");
    data[7] = 0;
    assert_eq!(binxml_name(&data, 1), "");
}

// ---------------------------------------------------------------------
// Events
// ---------------------------------------------------------------------

#[test]
fn fields_of_an_event_are_found() {
    let e = event(&[
        ("EventID", "4624"),
        ("ProcessID", "+12"),
        ("Channel", "Security"),
        ("Computer", "PC"),
        ("Provider", "P"),
        ("UserID", "S-1-5-18"),
    ]);
    assert_eq!((e.record_id, e.event_id, e.process_id), (7, 4624, 12));
    assert_eq!((e.channel.as_str(), e.computer.as_str()), ("Security", "PC"));
    assert_eq!((e.provider.as_str(), e.user_sid.as_str()), ("P", "S-1-5-18"));
    assert_eq!(e.fields.len(), 6);
    for bad in ["", "x", "1x", "-1", "4294967296", "0x10", "+"] {
        assert_eq!(event(&[("EventID", bad)]).event_id, 0);
    }
    assert_eq!(event(&[("EventID", "4294967295")]).event_id, u32::MAX);
    assert_eq!(event(&[]).event_id, 0);
}

#[test]
fn time_created_comes_before_the_header() {
    let ft = 116_444_736_000_000_000u64 + 10_000_000;
    let made = fields(&[("TimeCreated", "2024-06-01T00:00:00+00:00")]);
    assert_eq!(decode_fields(1, ft, made, &mut now()).timestamp.timestamp(), 1_717_200_000);
    let bad = fields(&[("TimeCreated", "yesterday")]);
    assert_eq!(decode_fields(1, ft, bad, &mut now()).timestamp.timestamp(), 1);
    assert_eq!(decode_fields(1, ft, fields(&[]), &mut now()).timestamp.timestamp(), 1);
    assert_eq!(decode_fields(1, 0, fields(&[]), &mut now()).timestamp.timestamp(), 99);
    let mut clock = Clock::system();
    decode_fields(1, ft, fields(&[]), &mut clock);
    assert!(clock.readings().is_empty());
    let first = decode_fields(1, 0, fields(&[]), &mut clock);
    let second = decode_fields(2, 0, fields(&[]), &mut clock);
    let shown: Vec<String> = clock.readings().iter().map(|t| t.to_rfc3339()).collect();
    assert_eq!(shown, vec![first.timestamp.to_rfc3339(), second.timestamp.to_rfc3339()]);
}

#[test]
fn known_events_have_a_description_of_their_own() {
    let all = [
        ("TargetUserName", "tu"),
        ("LogonType", "lt"),
        ("IpAddress", "ip"),
        ("Status", "st"),
        ("NewProcessName", "np"),
        ("ParentProcessName", "pp"),
        ("CommandLine", "cl"),
        ("Image", "im"),
        ("ParentImage", "pi"),
        ("DestinationIp", "di"),
        ("DestinationPort", "dp"),
        ("MemberName", "mn"),
        ("ServiceName", "sn"),
        ("ImagePath", "ia"),
        ("TaskName", "tn"),
        ("SubjectUserName", "su"),
        ("TicketEncryptionType", "et"),
        ("Provider", "Microsoft-Windows-Sysmon"),
        ("Channel", "ch"),
    ];
    for (id, text, target) in [
        ("4624", "Logon: tu (type lt) from ip", None),
        ("4625", "Failed logon: tu from ip (status st)", None),
        ("4688", "Process created: np (parent pp) cmd: cl", Some("np")),
        ("1", "Sysmon process create: im (parent pi) cmd: cl", Some("im")),
        ("3", "Sysmon network connection: im -> di:dp", Some("im")),
        ("4720", "User account created: tu", None),
        ("4728", "Member added to privileged group tu: mn", None),
        ("4732", "Member added to privileged group tu: mn", None),
        ("4756", "Member added to privileged group tu: mn", None),
        ("7045", "Service installed: sn (ia)", Some("ia")),
        ("4698", "Scheduled task created: tn", None),
        ("1102", "Security audit log cleared by su", None),
        ("104", "System event log cleared", None),
        ("4769", "Kerberos service ticket requested: sn by tu (etype et)", None),
        ("4768", "Kerberos TGT requested by tu (etype et)", None),
        ("2", "Microsoft-Windows-Sysmon event 2 on ch", None),
    ] {
        let mut pairs = all.to_vec();
        pairs.push(("EventID", id));
        let (description, found) = describe(&event(&pairs));
        assert_eq!(description, text);
        assert_eq!(found.as_deref(), target);
    }
}

#[test]
fn other_events_have_a_general_description() {
    let (text, target) = describe(&event(&[("EventID", "1"), ("Provider", "Other"), ("Image", "i")]));
    assert_eq!(text, "Other event 1 on ");
    assert_eq!(target, None);
    let (text, _) = describe(&event(&[("EventID", "3"), ("Channel", "App")]));
    assert_eq!(text, "Unknown provider event 3 on App");
    let (text, target) = describe(&event(&[("EventID", "4688")]));
    assert_eq!(text, "Process created:  (parent ) cmd: ");
    assert_eq!(target, None);
}

#[test]
fn event_of_a_record_holds_its_fields() {
    let e = build_event(
        &event(&[("EventID", "7045"), ("ImagePath", "C:\\x.exe"), ("ProcessID", "4")]),
        &"a.evtx".to_string(),
    );
    assert_eq!(e.source, ArtifactSource::Evtx);
    assert_eq!(e.event_type, "evtx_event_7045");
    assert_eq!(e.artifact_path, "a.evtx");
    assert_eq!(e.target_path.as_deref(), Some("C:\\x.exe"));
    assert_eq!(e.extra.get("record_id").and_then(|v| v.as_u64()), Some(7));
    assert_eq!(e.extra.get("event_id").and_then(|v| v.as_u64()), Some(7045));
    assert_eq!(e.extra.get("process_id").and_then(|v| v.as_u64()), Some(4));
    assert_eq!(e.extra.get("user_sid"), None);
    assert_eq!(e.extra.get("channel").and_then(|v| v.as_str()), Some(""));
    let fields = e.extra.get("fields").expect("fields");
    assert_eq!(fields.get("ImagePath").and_then(|v| v.as_str()), Some("C:\\x.exe"));
    assert_eq!(fields.as_object().map(|o| o.len()), Some(3));

    let e = build_event(&event(&[("UserID", "S-1-5-18")]), &"a.evtx".to_string());
    assert_eq!(e.extra.get("process_id"), None);
    assert_eq!(e.extra.get("user_sid").and_then(|v| v.as_str()), Some("S-1-5-18"));
}
