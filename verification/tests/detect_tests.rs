use traceforge::detect::{detect_all, top_entities, DetectionKind, DetectorConfig};
use traceforge::event::{EventRecord, Outcome, Severity};
use traceforge::synthetic::{generate_events, Scenario};
use traceforge::time::Timestamp;

fn auth(id: &str, secs: i64, user: &str, host: &str, ip: &str, outcome: Outcome, severity: Severity) -> EventRecord {
    EventRecord {
        id: id.to_string(),
        timestamp: Timestamp::new(secs, 0),
        source: "windows-security".to_string(),
        event_type: "authentication".to_string(),
        user: Some(user.to_string()),
        host: Some(host.to_string()),
        source_ip: Some(ip.to_string()),
        outcome,
        severity,
        message: String::new(),
        attributes: Vec::new(),
    }
}

#[test]
fn mixed_scenario_triggers_all_explainable_rules() {
    let events = generate_events(800, 42, Scenario::Mixed);
    let detections = detect_all(&events, &DetectorConfig::default());
    for kind in [
        DetectionKind::BruteForce,
        DetectionKind::PasswordSpray,
        DetectionKind::FailureThenSuccess,
        DetectionKind::LateralMovement,
    ] {
        assert!(detections.iter().any(|item| item.kind == kind), "missing {kind:?}");
    }
}

#[test]
fn detections_are_ordered_by_start() {
    let events = generate_events(800, 42, Scenario::Mixed);
    let detections = detect_all(&events, &DetectorConfig::default());
    for pair in detections.windows(2) {
        let (a, b) = (&pair[0].started_at, &pair[1].started_at);
        assert!((a.secs, a.nanos) <= (b.secs, b.nanos));
    }
}

#[test]
fn five_failures_in_the_window_are_a_brute_force() {
    let mut events = Vec::new();
    for k in 0..5 {
        events.push(auth(&format!("f{k}"), 1_000 + 10 * k, "ana", "ws-1", "10.0.0.1", Outcome::Failure, Severity::Low));
    }
    let detections = detect_all(&events, &DetectorConfig::default());
    let brute: Vec<_> = detections.iter().filter(|d| d.kind == DetectionKind::BruteForce).collect();
    assert_eq!(brute.len(), 1);
    assert_eq!(brute[0].event_ids.len(), 5);
    assert_eq!(brute[0].started_at.secs, 1_000);
    assert_eq!(brute[0].ended_at.secs, 1_040);
}

#[test]
fn failures_spread_beyond_the_window_are_quiet() {
    let mut events = Vec::new();
    for k in 0..5 {
        events.push(auth(&format!("f{k}"), 1_000 + 400 * k, "ana", "ws-1", "10.0.0.1", Outcome::Failure, Severity::Low));
    }
    let detections = detect_all(&events, &DetectorConfig::default());
    assert!(detections.iter().all(|d| d.kind != DetectionKind::BruteForce));
}

#[test]
fn no_events_no_detections() {
    assert!(detect_all(&[], &DetectorConfig::default()).is_empty());
}

#[test]
fn default_configuration_values() {
    let config = DetectorConfig::default();
    assert_eq!(config.brute_force_failures, 5);
    assert_eq!(config.spray_accounts, 5);
    assert_eq!(config.window_seconds, 300);
    assert_eq!(config.lateral_hosts, 3);
}

#[test]
fn top_entities_ranks_by_count_then_value() {
    let events = vec![
        auth("a", 1, "marcos", "h1", "1.1.1.1", Outcome::Success, Severity::Info),
        auth("b", 2, "ana", "h1", "1.1.1.1", Outcome::Success, Severity::Info),
        auth("c", 3, "marcos", "h2", "1.1.1.1", Outcome::Success, Severity::Info),
        auth("d", 4, "lucia", "h2", "1.1.1.1", Outcome::Success, Severity::Info),
        auth("e", 5, "ana", "h3", "1.1.1.1", Outcome::Success, Severity::Info),
        auth("f", 6, "diego", "h3", "1.1.1.1", Outcome::Success, Severity::Info),
    ];
    let top = top_entities(&events, "user", 3);
    assert_eq!(
        top,
        vec![("ana".to_string(), 2), ("marcos".to_string(), 2), ("lucia".to_string(), 1)]
    );
    assert!(top_entities(&events, "user", 0).is_empty());
    assert_eq!(top_entities(&events, "host", 10).len(), 3);
    assert!(top_entities(&events, "nothing", 5).is_empty());
}

#[test]
fn detection_kinds_have_kebab_names() {
    assert_eq!(DetectionKind::BruteForce.slug_string(), "brute-force");
    assert_eq!(DetectionKind::PasswordSpray.slug_string(), "password-spray");
    assert_eq!(DetectionKind::FailureThenSuccess.slug_string(), "failure-then-success");
    assert_eq!(DetectionKind::LateralMovement.slug_string(), "lateral-movement");
}

#[test]
fn readiness_check_accepts_ordinary_events_and_refuses_edges() {
    let events = generate_events(50, 2, Scenario::Mixed);
    assert!(traceforge::detect::detect_ready(&events, &DetectorConfig::default()));
    let mut config = DetectorConfig::default();
    config.brute_force_failures = 0;
    assert!(!traceforge::detect::detect_ready(&events, &config));
    let early = vec![auth("x", traceforge::time::MIN_SECS, "ana", "h", "1.1.1.1", Outcome::Failure, Severity::Low)];
    assert!(!traceforge::detect::detect_ready(&early, &DetectorConfig::default()));
}

#[test]
fn detection_does_not_depend_on_input_order() {
    let events = generate_events(400, 42, Scenario::Mixed);
    let mut reversed = events.clone();
    reversed.reverse();
    let mut shuffled = events.clone();
    shuffled.rotate_left(137);
    let config = DetectorConfig::default();
    let show = |events: &[EventRecord]| format!("{:?}", detect_all(events, &config));
    let first = show(&events);
    assert!(first.contains("BruteForce"));
    assert_eq!(first, show(&reversed));
    assert_eq!(first, show(&shuffled));
    assert_eq!(first, show(&events));
}
