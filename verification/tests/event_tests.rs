use traceforge::event::{EventRecord, Outcome, Severity};
use traceforge::time::Timestamp;

fn sample(id: &str) -> EventRecord {
    EventRecord {
        id: id.to_string(),
        timestamp: Timestamp::new(1_767_225_600, 0),
        source: "windows".to_string(),
        event_type: "authentication".to_string(),
        user: Some("ana".to_string()),
        host: Some("ws-01".to_string()),
        source_ip: Some("10.0.0.1".to_string()),
        outcome: Outcome::Failure,
        severity: Severity::High,
        message: "Invalid password".to_string(),
        attributes: vec![("synthetic".to_string(), "true".to_string())],
    }
}

#[test]
fn blank_ids_get_a_stable_fingerprint() {
    let mut a = sample("   ");
    let mut b = sample("");
    a.ensure_id();
    b.ensure_id();
    assert!(a.id.starts_with("tf-"));
    assert_eq!(a.id.len(), 23);
    assert_eq!(a.id, b.id);
    assert!(a.id[3..].chars().all(|c| c.is_ascii_hexdigit() && !c.is_ascii_uppercase()));
}

#[test]
fn fingerprint_depends_on_content() {
    let a = sample("x");
    let mut b = sample("x");
    b.message = "Other".to_string();
    assert_ne!(a.fingerprint(), b.fingerprint());
    let mut c = sample("y");
    c.attributes.clear();
    assert_eq!(a.fingerprint(), c.fingerprint());
}

#[test]
fn given_ids_are_kept() {
    let mut a = sample("evt-1");
    a.ensure_id();
    assert_eq!(a.id, "evt-1");
}

#[test]
fn fields_resolve_aliases_and_attributes() {
    let e = sample("evt-1");
    assert_eq!(e.field("USER").as_deref(), Some("ana"));
    assert_eq!(e.field("ip").as_deref(), Some("10.0.0.1"));
    assert_eq!(e.field("source_ip").as_deref(), Some("10.0.0.1"));
    assert_eq!(e.field("type").as_deref(), Some("authentication"));
    assert_eq!(e.field("result").as_deref(), Some("failure"));
    assert_eq!(e.field("severity").as_deref(), Some("high"));
    assert_eq!(e.field("synthetic").as_deref(), Some("true"));
    assert_eq!(e.field("missing"), None);
}

#[test]
fn severity_scores() {
    assert_eq!(Severity::Info.score(), 1);
    assert_eq!(Severity::Low.score(), 3);
    assert_eq!(Severity::Medium.score(), 5);
    assert_eq!(Severity::High.score(), 8);
    assert_eq!(Severity::Critical.score(), 10);
}

#[test]
fn normalizing_twice_changes_nothing() {
    let mut e = sample(" ");
    e.ensure_id();
    let first = e.id.clone();
    e.ensure_id();
    assert_eq!(e.id, first);
}
