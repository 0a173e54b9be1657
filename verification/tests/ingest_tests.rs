use traceforge::event::{EventRecord, Outcome, Severity};
use traceforge::ingest::{
    csv_row_outcome, ingest_rows, jsonl_row_outcome, jsonl_rows, jsonl_rows_from_bytes, CsvEventRow, IngestIssue,
    IngestReport,
};
use traceforge::time::Timestamp;

fn instant(text: &str) -> Timestamp {
    let parsed = chrono::DateTime::parse_from_rfc3339(text).unwrap();
    Timestamp::new(parsed.timestamp(), parsed.timestamp_subsec_nanos())
}

fn text_of(value: &serde_json::Value, key: &str) -> Option<String> {
    value.get(key).and_then(|v| v.as_str()).map(|s| s.to_string())
}

fn outcome_of(name: &str) -> Result<Outcome, String> {
    match name {
        "success" => Ok(Outcome::Success),
        "failure" => Ok(Outcome::Failure),
        "unknown" => Ok(Outcome::Unknown),
        other => Err(format!("unknown variant `{other}`")),
    }
}

fn severity_of(name: &str) -> Result<Severity, String> {
    match name {
        "info" => Ok(Severity::Info),
        "low" => Ok(Severity::Low),
        "medium" => Ok(Severity::Medium),
        "high" => Ok(Severity::High),
        "critical" => Ok(Severity::Critical),
        other => Err(format!("unknown variant `{other}`")),
    }
}

/// Reads one JSON line the way the event's serde form does.
fn parse_line(line: &str) -> Result<EventRecord, String> {
    let value: serde_json::Value = serde_json::from_str(line).map_err(|e| e.to_string())?;
    let stamp = text_of(&value, "timestamp").ok_or("missing field `timestamp`")?;
    let parsed = chrono::DateTime::parse_from_rfc3339(&stamp).map_err(|e| e.to_string())?;
    let mut attributes = Vec::new();
    if let Some(map) = value.get("attributes").and_then(|v| v.as_object()) {
        for (k, v) in map {
            attributes.push((k.clone(), v.as_str().unwrap_or_default().to_string()));
        }
    }
    Ok(EventRecord {
        id: text_of(&value, "id").unwrap_or_default(),
        timestamp: Timestamp::new(parsed.timestamp(), parsed.timestamp_subsec_nanos()),
        source: text_of(&value, "source").ok_or("missing field `source`")?,
        event_type: text_of(&value, "event_type").ok_or("missing field `event_type`")?,
        user: text_of(&value, "user"),
        host: text_of(&value, "host"),
        source_ip: text_of(&value, "source_ip"),
        outcome: outcome_of(&text_of(&value, "outcome").ok_or("missing field `outcome`")?)?,
        severity: severity_of(&text_of(&value, "severity").ok_or("missing field `severity`")?)?,
        message: text_of(&value, "message").ok_or("missing field `message`")?,
        attributes,
    })
}

fn ingest_jsonl(bytes: &[u8]) -> IngestReport {
    let mut rows: Vec<Result<EventRecord, IngestIssue>> = Vec::new();
    for (row, line) in jsonl_rows_from_bytes(bytes) {
        rows.push(jsonl_row_outcome(row, &line, parse_line(&line)));
    }
    ingest_rows(rows)
}

fn ingest_csv(bytes: &[u8]) -> IngestReport {
    let mut reader = csv::ReaderBuilder::new().flexible(true).from_reader(bytes);
    let headers = reader.headers().unwrap().clone();
    let mut rows: Vec<Result<EventRecord, IngestIssue>> = Vec::new();
    for (index, record) in reader.records().enumerate() {
        let row = record.map_err(|e| e.to_string()).and_then(|record| {
            let get = |name: &str| -> String {
                headers
                    .iter()
                    .position(|h| h == name)
                    .and_then(|i| record.get(i))
                    .unwrap_or_default()
                    .to_string()
            };
            let optional = |name: &str| -> Option<String> { Some(get(name)) };
            Ok(CsvEventRow {
                id: get("id"),
                timestamp: instant(&get("timestamp")),
                source: get("source"),
                event_type: get("event_type"),
                user: optional("user"),
                host: optional("host"),
                source_ip: optional("source_ip"),
                outcome: outcome_of(&get("outcome"))?,
                severity: severity_of(&get("severity"))?,
                message: get("message"),
                attributes_json: get("attributes_json"),
            })
        });
        rows.push(csv_row_outcome(index, row));
    }
    ingest_rows(rows)
}

#[test]
fn invalid_rows_are_reported_not_silently_dropped() {
    let report = ingest_jsonl(b"{not-json}\n");
    assert_eq!(report.total_rows, 1);
    assert_eq!(report.events.len(), 0);
    assert_eq!(report.invalid.len(), 1);
}

#[test]
fn csv_contract_reads_attributes_json() {
    let csv = "id,timestamp,source,event_type,user,host,source_ip,outcome,severity,message,attributes_json\n,2026-01-01T00:00:00Z,windows,authentication,ana,ws-01,10.0.0.1,failure,high,Invalid password,\"{\"\"synthetic\"\":\"\"true\"\"}\"\n";
    let report = ingest_csv(csv.as_bytes());
    assert_eq!(report.events.len(), 1);
    assert_eq!(
        report.events[0].attributes.iter().find(|(k, _)| k == "synthetic").map(|(_, v)| v.as_str()),
        Some("true")
    );
    assert!(report.events[0].id.starts_with("tf-"));
}

#[test]
fn blank_lines_are_skipped_but_counted_in_row_numbers() {
    let input = b"{\"id\":\"b\",\"timestamp\":\"2026-01-01T00:00:05Z\",\"source\":\"vpn\",\"event_type\":\"authentication\",\"outcome\":\"success\",\"severity\":\"info\",\"message\":\"ok\"}\r\n\n   \n{broken\n{\"id\":\"a\",\"timestamp\":\"2026-01-01T00:00:01Z\",\"source\":\"vpn\",\"event_type\":\"authentication\",\"outcome\":\"failure\",\"severity\":\"low\",\"message\":\"no\"}";
    let report = ingest_jsonl(input);
    assert_eq!(report.total_rows, 3);
    assert_eq!(report.invalid.len(), 1);
    assert_eq!(report.invalid[0].row, 4);
    assert_eq!(report.invalid[0].code, "invalid_json");
    assert_eq!(report.invalid[0].raw, "{broken");
    let ids: Vec<_> = report.events.iter().map(|e| e.id.as_str()).collect();
    assert_eq!(ids, vec!["a", "b"]);
    assert!(report.duplicate_ids.is_empty());
}

#[test]
fn jsonl_rows_follow_line_rules() {
    let rows = jsonl_rows("a\r\n\n b \nlast\r");
    assert_eq!(
        rows,
        vec![(1, "a".to_string()), (3, " b ".to_string()), (4, "last\r".to_string())]
    );
    assert!(jsonl_rows("").is_empty());
    assert!(jsonl_rows("\n\n").is_empty());
}

#[test]
fn raw_text_of_an_issue_is_cut_at_240_characters() {
    let line = "x".repeat(300);
    let outcome = jsonl_row_outcome(7, &line, Err("bad".to_string()));
    let issue = outcome.unwrap_err();
    assert_eq!(issue.row, 7);
    assert_eq!(issue.message, "bad");
    assert_eq!(issue.raw.chars().count(), 240);
}

#[test]
fn duplicate_ids_are_listed_once() {
    let mut input = String::new();
    for (id, second) in [("dup", 1), ("dup", 2), ("dup", 3), ("solo", 4)] {
        input.push_str(&format!(
            "{{\"id\":\"{id}\",\"timestamp\":\"2026-01-01T00:00:0{second}Z\",\"source\":\"s\",\"event_type\":\"t\",\"outcome\":\"failure\",\"severity\":\"low\",\"message\":\"m\"}}\n"
        ));
    }
    let report = ingest_jsonl(input.as_bytes());
    assert_eq!(report.events.len(), 4);
    assert_eq!(report.duplicate_ids, vec!["dup".to_string()]);
}

#[test]
fn csv_errors_carry_their_codes() {
    let bad_attrs = "id,timestamp,source,event_type,user,host,source_ip,outcome,severity,message,attributes_json\nx,2026-01-01T00:00:00Z,w,a,,,,success,info,m,{oops\n";
    let report = ingest_csv(bad_attrs.as_bytes());
    assert_eq!(report.total_rows, 1);
    assert_eq!(report.invalid.len(), 1);
    assert_eq!(report.invalid[0].row, 2);
    assert_eq!(report.invalid[0].code, "invalid_attributes");
    let issue = csv_row_outcome(0, Err("bad record".to_string())).unwrap_err();
    assert_eq!((issue.row, issue.code.as_str(), issue.message.as_str()), (2, "invalid_csv", "bad record"));
}

#[test]
fn empty_optional_csv_fields_are_absent() {
    let input = "id,timestamp,source,event_type,user,host,source_ip,outcome,severity,message,attributes_json\nx,2026-01-01T00:00:00Z,w,a,,ws-9,,success,info,m,\n";
    let report = ingest_csv(input.as_bytes());
    assert_eq!(report.events.len(), 1);
    let e = &report.events[0];
    assert_eq!(e.user, None);
    assert_eq!(e.host.as_deref(), Some("ws-9"));
    assert_eq!(e.source_ip, None);
    assert!(e.attributes.is_empty());
    assert_eq!(e.id, "x");
}

#[test]
fn lossy_decoding_keeps_valid_text() {
    assert_eq!(jsonl_rows_from_bytes("añb\n".as_bytes()), vec![(1, "añb".to_string())]);
    assert_eq!(jsonl_rows_from_bytes(&[0x61, 0xff, 0x62]), vec![(1, "a\u{fffd}b".to_string())]);
}

#[test]
fn csv_attribute_keys_come_sorted_and_once() {
    let row = CsvEventRow {
        id: "x".to_string(),
        timestamp: instant("2026-01-01T00:00:00Z"),
        source: "w".to_string(),
        event_type: "a".to_string(),
        user: None,
        host: None,
        source_ip: None,
        outcome: Outcome::Success,
        severity: Severity::Info,
        message: "m".to_string(),
        attributes_json: "{\"zeta\":\"1\",\"alpha\":\"2\",\"zeta\":\"3\"}".to_string(),
    };
    let event = row.into_event().unwrap();
    assert_eq!(
        event.attributes,
        vec![("alpha".to_string(), "2".to_string()), ("zeta".to_string(), "3".to_string())]
    );
}
