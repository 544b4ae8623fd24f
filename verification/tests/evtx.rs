use std::collections::HashMap;
use std::path::Path;

use chronoscope::artifacts::evtx::template::TOK_TMPL_INST;
use chronoscope::artifacts::evtx::values::{VT_BXML, VT_FILETIME, VT_U16, VT_U32, VT_WSTR};
use chronoscope::artifacts::evtx::{
    EvtxParser, CHUNK_SIZE, FILE_HEADER_SIZE, RECORD_HEADER_SIZE,
};
use chronoscope::artifacts::{ArtifactParser, SourceFile};
use chronoscope::timeline::time::{Clock, Timestamp};
use chronoscope::timeline::TimelineEvent;

/// The source file of a path that is not on disk.
fn file(path: &str) -> SourceFile {
    let stem = Path::new(path).file_stem().and_then(|s| s.to_str());
    SourceFile { path: path.to_string(), stem: stem.map(|s| s.to_string()), modified: None }
}

fn name_node(name: &str) -> Vec<u8> {
    let units: Vec<u16> = name.encode_utf16().collect();
    let mut out = Vec::new();
    out.extend_from_slice(&0u32.to_le_bytes());
    out.extend_from_slice(&0u16.to_le_bytes());
    out.extend_from_slice(&(name.len() as u16).to_le_bytes());
    for u in units {
        out.extend_from_slice(&u.to_le_bytes());
    }
    out.extend_from_slice(&0u16.to_le_bytes());
    out
}

/// Minimal template BinXML builder. Names are embedded *inline* at
/// first use (chunk-relative offset written immediately followed by
/// the NameStringNode bytes) — matching genuine EVTX layout, which
/// is what `parse_template_binxml`'s inline-name skip logic expects.
struct TemplateBuilder {
    chunk_base: usize,
    tok: Vec<u8>,
    name_off: HashMap<String, u32>,
}

impl TemplateBuilder {
    fn new(chunk_base: usize) -> Self {
        Self {
            chunk_base,
            tok: Vec::new(),
            name_off: HashMap::new(),
        }
    }
    fn emit_name_ref(&mut self, name: &str) {
        if let Some(&off) = self.name_off.get(name) {
            self.tok.extend_from_slice(&off.to_le_bytes());
        } else {
            let off = (self.chunk_base + self.tok.len() + 4) as u32;
            self.name_off.insert(name.to_string(), off);
            self.tok.extend_from_slice(&off.to_le_bytes());
            self.tok.extend_from_slice(&name_node(name));
        }
    }
    fn frag(&mut self) -> &mut Self {
        self.tok.extend_from_slice(&[0x0f, 0x01, 0x01, 0x00]);
        self
    }
    fn open_elem(&mut self, name: &str) -> &mut Self {
        self.tok.push(0x01);
        self.tok.extend_from_slice(&0u16.to_le_bytes());
        self.tok.extend_from_slice(&0u32.to_le_bytes());
        self.emit_name_ref(name);
        self
    }
    fn close_start(&mut self) -> &mut Self {
        self.tok.push(0x02);
        self
    }
    fn close_empty(&mut self) -> &mut Self {
        self.tok.push(0x03);
        self
    }
    fn end_elem(&mut self) -> &mut Self {
        self.tok.push(0x04);
        self
    }
    fn attr(&mut self, name: &str) -> &mut Self {
        self.tok.push(0x06);
        self.emit_name_ref(name);
        self
    }
    fn val_wstr(&mut self, s: &str) -> &mut Self {
        self.tok.extend_from_slice(&[0x05, 0x01]);
        self.tok.extend_from_slice(&(s.len() as u16).to_le_bytes());
        for u in s.encode_utf16() {
            self.tok.extend_from_slice(&u.to_le_bytes());
        }
        self
    }
    fn subst(&mut self, id: u16, vtype: u8) -> &mut Self {
        self.tok.push(0x0d);
        self.tok.extend_from_slice(&id.to_le_bytes());
        self.tok.push(vtype);
        self
    }
    fn eof(&mut self) -> &mut Self {
        self.tok.push(0x00);
        self
    }
    fn build(self) -> Vec<u8> {
        self.tok
    }
}

fn filetime_bytes(unix_ts: f64) -> [u8; 8] {
    let ft = ((unix_ts + 11_644_473_600.0) * 10_000_000.0) as u64;
    ft.to_le_bytes()
}

/// Builds a one-chunk EVTX file with a single TemplateInstance-based
/// 4624 logon record — the dominant real-world encoding (as opposed
/// to the literal/inline BinXML form, which is simpler to generate
/// but rare in genuine Windows event logs).
fn build_template_evtx() -> Vec<u8> {
    const CHUNK_HEADER_SIZE: usize = 512;
    let binxml_start_in_chunk = CHUNK_HEADER_SIZE + RECORD_HEADER_SIZE; // 536
    let header_part_len = 14;
    let template_def_offset = binxml_start_in_chunk + header_part_len; // 550
    let template_binxml_chunk_base = template_def_offset + 24; // 574

    let mut tb = TemplateBuilder::new(template_binxml_chunk_base);
    tb.frag()
        .open_elem("Event")
        .close_start()
        .open_elem("System")
        .close_start()
        .open_elem("Provider")
        .attr("Name")
        .subst(0, VT_WSTR)
        .close_empty()
        .open_elem("EventID")
        .close_start()
        .subst(1, VT_U16)
        .end_elem()
        .open_elem("TimeCreated")
        .attr("SystemTime")
        .subst(2, VT_FILETIME)
        .close_empty()
        .open_elem("EventRecordID")
        .close_start()
        .subst(3, VT_U32)
        .end_elem()
        .open_elem("Execution")
        .attr("ProcessID")
        .subst(4, VT_U32)
        .attr("ThreadID")
        .subst(5, VT_U32)
        .close_empty()
        .open_elem("Channel")
        .close_start()
        .subst(6, VT_WSTR)
        .end_elem()
        .open_elem("Computer")
        .close_start()
        .subst(7, VT_WSTR)
        .end_elem()
        .end_elem() // /System
        .open_elem("EventData")
        .close_start()
        .open_elem("Data")
        .attr("Name")
        .val_wstr("TargetUserName")
        .close_start()
        .subst(8, VT_WSTR)
        .end_elem()
        .open_elem("Data")
        .attr("Name")
        .val_wstr("LogonType")
        .close_start()
        .subst(9, VT_U32)
        .end_elem()
        .open_elem("Data")
        .attr("Name")
        .val_wstr("IpAddress")
        .close_start()
        .subst(10, VT_WSTR)
        .end_elem()
        .end_elem() // /EventData
        .end_elem() // /Event
        .eof();
    let tmpl_binxml = tb.build();

    let mut tmpl_def = Vec::new();
    tmpl_def.extend_from_slice(&0u32.to_le_bytes()); // next_offset
    tmpl_def.extend_from_slice(&[0x11u8; 16]); // GUID
    tmpl_def.extend_from_slice(&(tmpl_binxml.len() as u32).to_le_bytes());
    tmpl_def.extend_from_slice(&tmpl_binxml);

    let unix_ts = 1_717_200_000.0;
    let values: Vec<(u8, Vec<u8>)> = vec![
        (
            VT_WSTR,
            "Microsoft-Windows-Security-Auditing"
                .encode_utf16()
                .flat_map(|u| u.to_le_bytes())
                .collect(),
        ),
        (VT_U16, 4624u16.to_le_bytes().to_vec()),
        (VT_FILETIME, filetime_bytes(unix_ts).to_vec()),
        (VT_U32, 1u32.to_le_bytes().to_vec()),
        (VT_U32, 4u32.to_le_bytes().to_vec()),
        (VT_U32, 8u32.to_le_bytes().to_vec()),
        (
            VT_WSTR,
            "Security"
                .encode_utf16()
                .flat_map(|u| u.to_le_bytes())
                .collect(),
        ),
        (
            VT_WSTR,
            "WIN-DC01"
                .encode_utf16()
                .flat_map(|u| u.to_le_bytes())
                .collect(),
        ),
        (
            VT_WSTR,
            "jdoe"
                .encode_utf16()
                .flat_map(|u| u.to_le_bytes())
                .collect(),
        ),
        (VT_U32, 10u32.to_le_bytes().to_vec()),
        (
            VT_WSTR,
            "10.0.0.5"
                .encode_utf16()
                .flat_map(|u| u.to_le_bytes())
                .collect(),
        ),
    ];
    let mut descriptors = Vec::new();
    let mut value_blob = Vec::new();
    for (vt, data) in &values {
        descriptors.extend_from_slice(&(data.len() as u16).to_le_bytes());
        descriptors.push(*vt);
        descriptors.push(0); // flags
        value_blob.extend_from_slice(data);
    }

    let mut header_part = Vec::new();
    header_part.extend_from_slice(&[0x0f, 0x01, 0x01, 0x00]); // FragHeader
    header_part.push(TOK_TMPL_INST);
    header_part.push(0); // unknown
    header_part.extend_from_slice(&0u32.to_le_bytes()); // template_id
    header_part.extend_from_slice(&(template_def_offset as u32).to_le_bytes()); // data_offset
    assert_eq!(header_part.len(), header_part_len);

    let mut record_binxml = header_part;
    record_binxml.extend_from_slice(&tmpl_def);
    record_binxml.extend_from_slice(&(values.len() as u32).to_le_bytes());
    record_binxml.extend_from_slice(&descriptors);
    record_binxml.extend_from_slice(&value_blob);

    let total = RECORD_HEADER_SIZE + record_binxml.len();
    let ft = u64::from_le_bytes(filetime_bytes(unix_ts));
    let mut record = Vec::new();
    record.extend_from_slice(&[0x2a, 0x2a, 0x00, 0x00]);
    record.extend_from_slice(&(total as u32).to_le_bytes());
    record.extend_from_slice(&1u64.to_le_bytes()); // record_id
    record.extend_from_slice(&ft.to_le_bytes());
    record.extend_from_slice(&record_binxml);

    let mut chunk_hdr = vec![0u8; CHUNK_HEADER_SIZE];
    chunk_hdr[0..8].copy_from_slice(b"ElfChnk\0");
    chunk_hdr[8..16].copy_from_slice(&1u64.to_le_bytes());
    chunk_hdr[16..24].copy_from_slice(&1u64.to_le_bytes());
    chunk_hdr[24..32].copy_from_slice(&1u64.to_le_bytes());
    chunk_hdr[32..40].copy_from_slice(&1u64.to_le_bytes());
    chunk_hdr[40..44].copy_from_slice(&128u32.to_le_bytes());

    let mut chunk = chunk_hdr;
    chunk.extend_from_slice(&record);
    chunk.resize(CHUNK_SIZE, 0);

    let mut file_hdr = vec![0u8; FILE_HEADER_SIZE];
    file_hdr[0..8].copy_from_slice(b"ElfFile\0");
    file_hdr[8..16].copy_from_slice(&0u64.to_le_bytes());
    file_hdr[16..24].copy_from_slice(&0u64.to_le_bytes());
    file_hdr[24..32].copy_from_slice(&1u64.to_le_bytes());
    file_hdr[32..36].copy_from_slice(&128u32.to_le_bytes());
    file_hdr[36..38].copy_from_slice(&1u16.to_le_bytes());
    file_hdr[38..40].copy_from_slice(&3u16.to_le_bytes());
    file_hdr[40..42].copy_from_slice(&0x1000u16.to_le_bytes());
    file_hdr[42..44].copy_from_slice(&1u16.to_le_bytes());

    let mut full = file_hdr;
    full.extend_from_slice(&chunk);
    full
}

#[test]
fn parses_template_instance_logon_event() {
    let raw = build_template_evtx();
    let parser = EvtxParser;
    assert!(parser.matches(&raw));
    let events = parser.parse(&raw, &file("test.evtx"));
    assert_eq!(events.len(), 1);
    let ev = &events[0];
    assert_eq!(ev.event_type, "evtx_event_4624");
    assert_eq!(ev.description, "Logon: jdoe (type 10) from 10.0.0.5");
    assert_eq!(
        ev.extra.get("provider").and_then(|v| v.as_str()),
        Some("Microsoft-Windows-Security-Auditing")
    );
    assert_eq!(
        ev.extra.get("channel").and_then(|v| v.as_str()),
        Some("Security")
    );
    assert_eq!(
        ev.extra.get("computer").and_then(|v| v.as_str()),
        Some("WIN-DC01")
    );
    let fields = ev.extra.get("fields").unwrap();
    assert_eq!(
        fields.get("TargetUserName").and_then(|v| v.as_str()),
        Some("jdoe")
    );
    assert_eq!(
        fields.get("IpAddress").and_then(|v| v.as_str()),
        Some("10.0.0.5")
    );
    assert_eq!(fields.get("LogonType").and_then(|v| v.as_str()), Some("10"));
}

#[test]
fn non_evtx_bytes_yield_nothing() {
    let parser = EvtxParser;
    let raw = b"not an event log".to_vec();
    assert!(!parser.matches(&raw));
    assert!(parser.parse(&raw, &file("x")).is_empty());
}

/// A log of one chunk with these records (FILETIME and BinXML).
fn log(records: &[(u64, Vec<u8>)]) -> Vec<u8> {
    let mut chunk = vec![0u8; 512];
    chunk[0..8].copy_from_slice(b"ElfChnk\0");
    for (i, (ft, binxml)) in records.iter().enumerate() {
        chunk.extend_from_slice(&[0x2a, 0x2a, 0, 0]);
        chunk.extend_from_slice(&((RECORD_HEADER_SIZE + binxml.len()) as u32).to_le_bytes());
        chunk.extend_from_slice(&(i as u64 + 10).to_le_bytes());
        chunk.extend_from_slice(&ft.to_le_bytes());
        chunk.extend_from_slice(binxml);
    }
    chunk.resize(CHUNK_SIZE, 0);
    let mut raw = vec![0u8; FILE_HEADER_SIZE];
    raw[0..8].copy_from_slice(b"ElfFile\0");
    raw.extend_from_slice(&chunk);
    raw
}

fn ticks(unix: i64) -> u64 {
    (unix * 10_000_000 + 116_444_736_000_000_000) as u64
}

fn wide(s: &str) -> Vec<u8> {
    s.encode_utf16().flat_map(|u| u.to_le_bytes()).collect()
}

fn parse(raw: &[u8]) -> Vec<TimelineEvent> {
    let now = Timestamp::new(99, 0).expect("a moment");
    EvtxParser.parse_at(raw, &file("a.evtx"), now)
}

fn field<'a>(event: &'a TimelineEvent, key: &str) -> Option<&'a str> {
    event.extra.get("fields").and_then(|f| f.get(key)).and_then(|v| v.as_str())
}

fn field_count(event: &TimelineEvent) -> usize {
    event.extra.get("fields").and_then(|f| f.as_object()).map_or(0, |o| o.len())
}

/// BinXML with its names at the end, where no token is read any more.
struct Inline {
    tok: Vec<u8>,
    patches: Vec<(usize, String)>,
}

impl Inline {
    fn new() -> Self {
        Self { tok: Vec::new(), patches: Vec::new() }
    }
    fn name(&mut self, name: &str) {
        self.patches.push((self.tok.len(), name.to_string()));
        self.tok.extend_from_slice(&[0; 4]);
    }
    fn open(mut self, name: &str) -> Self {
        self.tok.extend_from_slice(&[0x01, 0, 0, 0, 0, 0, 0]);
        self.name(name);
        self
    }
    fn attr(mut self, name: &str) -> Self {
        self.tok.push(0x06);
        self.name(name);
        self
    }
    fn text(mut self, s: &str) -> Self {
        self.tok.extend_from_slice(&[0x05, 0x01]);
        self.tok.extend_from_slice(&(s.encode_utf16().count() as u16).to_le_bytes());
        self.tok.extend_from_slice(&wide(s));
        self
    }
    fn close(mut self) -> Self {
        self.tok.push(0x03);
        self
    }
    fn raw(mut self, bytes: &[u8]) -> Self {
        self.tok.extend_from_slice(bytes);
        self
    }
    fn build(mut self) -> Vec<u8> {
        self.tok.push(0x00);
        for (at, name) in std::mem::take(&mut self.patches) {
            let offset = self.tok.len() as u32;
            self.tok[at..at + 4].copy_from_slice(&offset.to_le_bytes());
            self.tok.extend_from_slice(&name_node(&name));
        }
        self.tok
    }
}

#[test]
fn inline_record_has_its_fields() {
    let binxml = Inline::new()
        .raw(&[0x0f, 1, 1, 0])
        .open("Event")
        .open("Provider")
        .attr("Name")
        .text("Prov")
        .attr("Guid")
        .text("{x}")
        .close()
        .open("EventID")
        .attr("Qualifiers")
        .text("0")
        .text("4720")
        .close()
        .open("TimeCreated")
        .attr("SystemTime")
        .text("2024-06-01T00:00:00Z")
        .close()
        .open("Execution")
        .attr("ProcessID")
        .text("44")
        .attr("Other")
        .text("o")
        .close()
        .raw(&[0x0d, 0, 0, 1, 0x0e, 1, 0, 1]) // substitutions without an instance
        .open("Data")
        .attr("Name")
        .text("TargetUserName")
        .text("jdoe")
        .text("lost")
        .close()
        .build();
    let events = parse(&log(&[(ticks(5), binxml)]));
    assert_eq!(events.len(), 1);
    let e = &events[0];
    assert_eq!(e.event_type, "evtx_event_4720");
    assert_eq!(e.description, "User account created: jdoe");
    assert_eq!(e.timestamp.timestamp(), 1_717_200_000);
    assert_eq!(field(e, "Provider"), Some("Prov"));
    assert_eq!(field(e, "ProviderGuid"), Some("{x}"));
    assert_eq!(field(e, "Qualifiers"), Some("0"));
    assert_eq!(field(e, "Execution/Other"), Some("o"));
    assert_eq!(field(e, "TargetUserName"), Some("jdoe"));
    assert_eq!(field(e, "_DataName"), None);
    assert_eq!(field_count(e), 8);
    assert_eq!(e.extra.get("process_id").and_then(|v| v.as_u64()), Some(44));
}

#[test]
fn unknown_token_ends_a_record() {
    let binxml = Inline::new().open("Level").text("2").raw(&[0x77]).open("Task").text("3").build();
    let e = &parse(&log(&[(ticks(5), binxml)]))[0];
    assert_eq!(field(e, "Level"), Some("2"));
    assert_eq!(field(e, "Task"), None);
    assert_eq!(e.timestamp.timestamp(), 5);
}

#[test]
fn long_values_are_cut_and_long_names_left_out() {
    let binxml = Inline::new()
        .open("A")
        .text(&"v".repeat(5000))
        .close()
        .open(&"n".repeat(65))
        .text("x")
        .close()
        .open(&"n".repeat(64))
        .text("y")
        .close()
        .build();
    let e = &parse(&log(&[(ticks(5), binxml)]))[0];
    assert_eq!(field(e, "A").map(|v| v.len()), Some(4096));
    assert_eq!(field(e, &"n".repeat(65)), None);
    assert_eq!(field(e, &"n".repeat(64)), Some("y"));
}

#[test]
fn fields_are_read_up_to_a_limit() {
    let mut b = Inline::new();
    for i in 0..300 {
        b = b.open(&format!("F{i}")).text("x").close();
    }
    let e = &parse(&log(&[(ticks(5), b.build())]))[0];
    assert_eq!(field_count(e), 256);
    assert_eq!(field(e, "F255"), Some("x"));
    assert_eq!(field(e, "F256"), None);
}

#[test]
fn records_are_found_and_undated_ones_get_the_present() {
    let mut raw = log(&[(ticks(5), vec![0]), (0, vec![0, 0, 0])]);
    // A record whose size is wrong, and one behind it.
    let at = FILE_HEADER_SIZE + 512 + 25 + 27;
    let at = at + (4 - (at - FILE_HEADER_SIZE - 512) % 4) % 4 + 1024;
    raw[at..at + 4].copy_from_slice(&[0x2a, 0x2a, 0, 0]);
    raw[at + 4..at + 8].copy_from_slice(&70_000u32.to_le_bytes());
    let shown: Vec<(i64, Option<u64>)> = parse(&raw)
        .iter()
        .map(|e| {
            (e.timestamp.timestamp(), e.extra.get("record_id").and_then(|v| v.as_u64()))
        })
        .collect();
    assert_eq!(shown, vec![(5, Some(10)), (99, Some(11))]);
}

#[test]
fn truncated_log_has_the_events_of_whole_chunks() {
    let one = log(&[(ticks(5), vec![0])]);
    let mut raw = one.clone();
    raw.extend_from_slice(&[0u8; CHUNK_SIZE]); // no chunk
    raw.extend_from_slice(&log(&[(ticks(6), vec![0]), (ticks(7), vec![0, 0, 0, 0])])[FILE_HEADER_SIZE..]);
    let times = |raw: &[u8]| -> Vec<i64> {
        parse(raw).iter().map(|e| e.timestamp.timestamp()).collect()
    };
    assert_eq!(times(&raw), vec![5, 6, 7]);
    assert_eq!(times(&raw[0..raw.len() - 1]), vec![5]);
    assert_eq!(times(&one[0..one.len() - 1]), Vec::<i64>::new());
    assert_eq!(times(&one[0..8]), Vec::<i64>::new());
    assert!(!EvtxParser.matches(&one[0..7]));
}

/// The token of an instance of the template at `offset` of the chunk, and its
/// values.
fn instance(offset: u32, values: &[(u8, u8, Vec<u8>)]) -> Vec<u8> {
    let mut out = vec![TOK_TMPL_INST, 0, 0, 0, 0, 0];
    out.extend_from_slice(&offset.to_le_bytes());
    out.extend_from_slice(&(values.len() as u32).to_le_bytes());
    for (vtype, flags, data) in values {
        out.extend_from_slice(&(data.len() as u16).to_le_bytes());
        out.push(*vtype);
        out.push(*flags);
    }
    for (_, _, data) in values {
        out.extend_from_slice(data);
    }
    out
}

#[test]
fn values_without_a_template_have_their_usual_names() {
    let mut values = vec![(VT_WSTR, 0u8, wide("Prov"))];
    values.extend((1..3).map(|_| (VT_U16, 0x80, vec![1, 0]))); // null
    values.push((VT_U16, 0, 4698u16.to_le_bytes().to_vec()));
    values.push((VT_U16, 0, vec![])); // empty
    values.extend((5..18).map(|i| (VT_U16, 0, vec![i, 0])));
    values.push((VT_U16, 0, vec![18, 0]));
    let e = &parse(&log(&[(ticks(5), instance(0xFFFF_FFF0, &values))]))[0];
    assert_eq!(e.event_type, "evtx_event_4698");
    assert_eq!(field(e, "Provider"), Some("Prov"));
    assert_eq!(field(e, "ProviderGuid"), None);
    assert_eq!(field(e, "Version"), None);
    assert_eq!(field(e, "Level"), Some("5"));
    assert_eq!(field(e, "UserID"), Some("17"));
    assert_eq!(field_count(e), 15);
}

#[test]
fn values_that_a_template_does_not_name_are_left_out() {
    // A template with a literal level and one substitution, number 3.
    let binxml_at = 512 + 24;
    let def_at = binxml_at + 10;
    let mut tb = TemplateBuilder::new(def_at + 24);
    tb.open_elem("Level")
        .close_start()
        .val_wstr("4")
        .end_elem()
        .open_elem("Task")
        .close_start()
        .val_wstr("8")
        .end_elem()
        .open_elem("EventID")
        .close_start()
        .subst(3, VT_U16)
        .end_elem()
        .open_elem("Task")
        .close_start()
        .subst(2, VT_U16)
        .end_elem()
        .eof();
    let def = tb.build();
    let values = vec![
        (VT_WSTR, 0, wide("not named")),
        (VT_U16, 0, vec![1, 0]),
        (VT_U16, 0, vec![2, 0]),
        (VT_U16, 0, vec![3, 0]),
    ];
    let whole = instance(def_at as u32, &values);
    let mut binxml = whole[0..10].to_vec();
    binxml.extend_from_slice(&[0u8; 20]);
    binxml.extend_from_slice(&(def.len() as u32).to_le_bytes());
    binxml.extend_from_slice(&def);
    binxml.extend_from_slice(&whole[10..]);
    // A second record uses the same definition.
    let events = parse(&log(&[(ticks(5), binxml), (ticks(6), whole)]));
    assert_eq!(events.len(), 2);
    for e in &events {
        assert_eq!(field(e, "EventID"), Some("3"));
        assert_eq!(field(e, "Task"), Some("2"));
        assert_eq!(field(e, "Level"), Some("4"));
        assert_eq!(field_count(e), 3);
    }
}

#[test]
fn nested_instance_adds_its_fields() {
    // The definition of the nested instance names value 0 after a Data element.
    let binxml_at = 512 + 24;
    let nested_at = binxml_at + 10 + 4 + 4; // behind the outer head and descriptor
    let def_at = nested_at + 4 + 10;
    let mut tb = TemplateBuilder::new(def_at + 24);
    tb.open_elem("Data")
        .attr("Name")
        .val_wstr("TargetUserName")
        .close_start()
        .subst(0, VT_WSTR)
        .end_elem()
        .eof();
    let def = tb.build();
    let inner = instance(def_at as u32, &[(VT_WSTR, 0, wide("jdoe"))]);
    let mut nested = vec![0x0f, 1, 1, 0];
    nested.extend_from_slice(&inner[0..10]);
    nested.extend_from_slice(&[0u8; 20]);
    nested.extend_from_slice(&(def.len() as u32).to_le_bytes());
    nested.extend_from_slice(&def);
    nested.extend_from_slice(&inner[10..]);
    let outer = instance(0xFFFF_FFF0, &[(VT_BXML, 0, nested)]);
    let e = &parse(&log(&[(ticks(5), outer)]))[0];
    assert_eq!(field(e, "TargetUserName"), Some("jdoe"));
    assert_eq!(field_count(e), 1);
}

#[test]
fn instance_that_is_cut_off_has_no_fields() {
    let whole = instance(0xFFFF_FFF0, &[(VT_WSTR, 0, wide("Prov")), (VT_U16, 0, vec![1, 0])]);
    for n in 0..whole.len() {
        let e = &parse(&log(&[(ticks(5), whole[0..n].to_vec())]))[0];
        assert_eq!(field_count(e), 0, "{}", n);
    }
    let mut many = whole.clone();
    many[10..14].copy_from_slice(&513u32.to_le_bytes());
    assert_eq!(field_count(&parse(&log(&[(ticks(5), many)]))[0]), 0);
    assert_eq!(field_count(&parse(&log(&[(ticks(5), whole)]))[0]), 2);
}

#[test]
fn each_undated_record_reads_the_clock() {
    let raw = log(&[(0, vec![0]), (ticks(5), vec![0, 0, 0]), (0, vec![0, 0])]);
    let mut clock = Clock::system();
    let events = EvtxParser.parse_with(&raw, &file("a.evtx"), &mut clock);
    let shown: Vec<String> = events.iter().map(|e| e.timestamp.to_rfc3339()).collect();
    let read: Vec<String> = clock.readings().iter().map(|t| t.to_rfc3339()).collect();
    assert_eq!(read.len(), 2);
    assert_eq!(shown, vec![read[0].clone(), "1970-01-01T00:00:05+00:00".to_string(), read[1].clone()]);
}

#[test]
fn nested_instance_of_null_values_has_no_fields() {
    // Its template is loaded all the same, for a later record to use.
    let binxml_at = 512 + 24;
    let nested_at = binxml_at + 10 + 4 + 4;
    let def_at = nested_at + 10;
    let mut tb = TemplateBuilder::new(def_at + 24);
    tb.open_elem("EventID").close_start().subst(0, VT_U16).end_elem().eof();
    let def = tb.build();
    let inner = instance(def_at as u32, &[(VT_U16, 0x80, vec![1, 0])]);
    let mut nested = inner[0..10].to_vec();
    nested.extend_from_slice(&[0u8; 20]);
    nested.extend_from_slice(&(def.len() as u32).to_le_bytes());
    nested.extend_from_slice(&def);
    nested.extend_from_slice(&inner[10..]);
    let outer = instance(0xFFFF_FFF0, &[(VT_BXML, 0, nested)]);
    let later = instance(def_at as u32, &[(VT_U16, 0, vec![7, 0])]);
    let events = parse(&log(&[(ticks(5), outer), (ticks(6), later)]));
    assert_eq!(field_count(&events[0]), 0);
    assert_eq!(field(&events[1], "EventID"), Some("7"));
}
