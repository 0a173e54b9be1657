use traceforge::synthetic::{generate_events, Scenario};

#[test]
fn generation_is_deterministic_and_ordered() {
    let a = generate_events(100, 77, Scenario::Mixed);
    let b = generate_events(100, 77, Scenario::Mixed);
    assert_eq!(a, b);
    assert!(a
        .windows(2)
        .all(|pair| (pair[0].timestamp.secs, pair[0].timestamp.nanos) <= (pair[1].timestamp.secs, pair[1].timestamp.nanos)));
}

#[test]
fn baseline_events_have_the_documented_shape() {
    let events = generate_events(10, 42, Scenario::Baseline);
    assert_eq!(events.len(), 10);
    let first = events.iter().find(|e| e.id == "evt-0000002a-00000000").unwrap();
    assert_eq!(first.source, "vpn");
    assert_eq!(first.event_type, "authentication");
    assert!(first.timestamp.secs >= 1_785_398_400 && first.timestamp.secs < 1_785_398_407);
    assert_eq!(first.attributes, vec![("synthetic".to_string(), "true".to_string())]);
    let second = events.iter().find(|e| e.id == "evt-0000002a-00000001").unwrap();
    assert_eq!(second.source, "windows-security");
}

#[test]
fn zero_seed_behaves_like_seed_one() {
    let zero: Vec<_> = generate_events(30, 0, Scenario::Baseline).into_iter().map(|e| (e.timestamp, e.user, e.host)).collect();
    let one: Vec<_> = generate_events(30, 1, Scenario::Baseline).into_iter().map(|e| (e.timestamp, e.user, e.host)).collect();
    assert_eq!(zero, one);
}

#[test]
fn scenarios_inject_their_marked_events() {
    let events = generate_events(2000, 5, Scenario::Mixed);
    let marked: Vec<_> = events.iter().filter(|e| e.id.starts_with("scenario-5-")).collect();
    assert_eq!(marked.len(), 17);
    assert!(marked.iter().any(|e| e.id == "scenario-5-brute-success"));
    assert!(marked.iter().all(|e| e.attributes.iter().any(|(k, v)| k == "scenario_marker" && v == "true")));
}

#[test]
fn count_is_kept_after_injection() {
    assert_eq!(generate_events(5, 9, Scenario::BruteForce).len(), 5);
    assert!(generate_events(0, 9, Scenario::Mixed).is_empty());
}

#[test]
fn different_seeds_give_different_traffic() {
    let a = generate_events(40, 1, Scenario::Baseline);
    let b = generate_events(40, 2, Scenario::Baseline);
    assert_ne!(
        a.iter().map(|e| (e.user.clone(), e.host.clone())).collect::<Vec<_>>(),
        b.iter().map(|e| (e.user.clone(), e.host.clone())).collect::<Vec<_>>()
    );
}

#[test]
fn generated_attribute_keys_are_sorted() {
    for event in generate_events(200, 5, Scenario::Mixed) {
        for pair in event.attributes.windows(2) {
            assert!(pair[0].0 < pair[1].0);
        }
    }
}
