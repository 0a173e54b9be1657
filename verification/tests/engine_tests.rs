use traceforge::engine::{parse_scenario, TraceForgeEngine, WEB_MAX_BYTES, WEB_MAX_EVENTS};
use traceforge::ingest::{ingest_rows, IngestReport};
use traceforge::synthetic::{generate_events, Scenario};

#[test]
fn engine_starts_with_the_mixed_demo_dataset() {
    let engine = TraceForgeEngine::new();
    let stats = engine.stats();
    assert_eq!(stats.events, 2000);
    assert!(stats.nodes > 0 && stats.edges > 0);
    assert!(stats.local_only);
    assert_eq!(stats.engine, "traceforge-core/0.1.0");
    assert_eq!(engine.events().len(), 2000);
}

#[test]
fn generate_enforces_the_browser_limits() {
    let mut engine = TraceForgeEngine::new();
    assert_eq!(engine.generate(WEB_MAX_EVENTS + 1, 1, "mixed").unwrap_err(), "event limit is 100000");
    assert_eq!(engine.generate(10, 1, "nonsense").unwrap_err(), "unknown scenario");
    assert_eq!(engine.stats().events, 2000);
    let stats = engine.generate(300, 9, "brute-force").unwrap();
    assert_eq!(stats.events, 300);
    assert_eq!(engine.events().len(), 300);
}

#[test]
fn scenario_names_are_kebab_case() {
    assert_eq!(parse_scenario("baseline"), Ok(Scenario::Baseline));
    assert_eq!(parse_scenario("brute-force"), Ok(Scenario::BruteForce));
    assert_eq!(parse_scenario("password-spray"), Ok(Scenario::PasswordSpray));
    assert_eq!(parse_scenario("lateral-movement"), Ok(Scenario::LateralMovement));
    assert_eq!(parse_scenario("mixed"), Ok(Scenario::Mixed));
    assert!(parse_scenario("Mixed").is_err());
}

#[test]
fn size_limit_is_fifty_megabytes() {
    assert!(TraceForgeEngine::accept_size(WEB_MAX_BYTES).is_ok());
    assert_eq!(TraceForgeEngine::accept_size(WEB_MAX_BYTES + 1).unwrap_err(), "file limit is 50 MB");
}

#[test]
fn loading_a_report_replaces_the_dataset() {
    let mut engine = TraceForgeEngine::new();
    let rows = generate_events(40, 3, Scenario::Baseline).into_iter().map(Ok).collect();
    let report: IngestReport = ingest_rows(rows);
    let back = engine.load_report(report).unwrap();
    assert_eq!(back.events.len(), 40);
    assert_eq!(engine.stats().events, 40);
    let result = engine.query("source:vpn", usize::MAX).unwrap();
    assert!(result.matches.iter().all(|e| e.source == "vpn"));
}

#[test]
fn engine_answers_graph_path_and_detections() {
    let engine = TraceForgeEngine::new();
    let (nodes, edges) = engine.graph();
    assert_eq!(nodes.len(), engine.stats().nodes);
    assert_eq!(edges.len(), engine.stats().edges);
    let user = nodes.iter().find(|n| n.id == "user:ana").unwrap();
    let host = nodes.iter().find(|n| n.kind == "host" && n.component == user.component).unwrap();
    assert!(engine.path(&user.id, &host.id, false).found);
    assert!(engine.path(&user.id, &host.id, true).found);
    assert!(!engine.detections().is_empty());
}
