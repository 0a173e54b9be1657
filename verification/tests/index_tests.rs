use traceforge::event::{EventRecord, Outcome, Severity};
use traceforge::time::Timestamp;
use traceforge::index::SearchIndex;
use traceforge::postings::{difference, intersect, union};
use traceforge::query::parse_query;
use traceforge::synthetic::{generate_events, Scenario};

#[test]
fn indexed_results_equal_linear_scan() {
    let index = SearchIndex::build(generate_events(600, 42, Scenario::Mixed));
    for query in [
        "outcome:failure AND user:ana",
        "host:ws-* OR severity:critical",
        "NOT outcome:success AND type:authentication",
        "message:\"invalid password\"",
    ] {
        let expr = parse_query(query).unwrap();
        let indexed: Vec<_> = index
            .query(query, usize::MAX)
            .unwrap()
            .matches
            .into_iter()
            .map(|event| event.id)
            .collect();
        let scanned: Vec<_> = index
            .linear_scan(&expr)
            .into_iter()
            .map(|id| index.events()[id].id.clone())
            .collect();
        assert_eq!(indexed, scanned, "query: {query}");
    }
}

#[test]
fn posting_intersection_matches_set_semantics() {
    let a = vec![1usize, 3, 5, 7, 9, 120];
    let b = vec![0usize, 3, 4, 9, 10, 120, 199];
    assert_eq!(intersect(&a, &b), vec![3, 9, 120]);
    assert_eq!(intersect(&a, &[]), Vec::<usize>::new());
    assert_eq!(union(&a, &b), vec![0, 1, 3, 4, 5, 7, 9, 10, 120, 199]);
    assert_eq!(difference(&a, &b), vec![1, 5, 7]);
    assert_eq!(difference(&b, &a), vec![0, 4, 10, 199]);
}

#[test]
fn limit_caps_matches_but_not_candidates() {
    let index = SearchIndex::build(generate_events(300, 9, Scenario::BruteForce));
    let all = index.query("outcome:failure", usize::MAX).unwrap();
    let few = index.query("outcome:failure", 3).unwrap();
    assert!(all.matches.len() > 3);
    assert_eq!(few.matches.len(), 3);
    assert_eq!(few.plan.candidates, all.matches.len());
    assert_eq!(few.plan.total_events, 300);
    assert_eq!(few.plan.strategy, "indexed-posting-lists");
    for (x, y) in few.matches.iter().zip(all.matches.iter()) {
        assert_eq!(x.id, y.id);
    }
}

#[test]
fn time_range_query_agrees_with_scan() {
    let index = SearchIndex::build(generate_events(400, 21, Scenario::Mixed));
    let query = "timestamp:[2026-07-30T08:10:00Z TO 2026-07-30T08:40:00Z] AND outcome:failure";
    let expr = parse_query(query).unwrap();
    let indexed: Vec<_> = index.query(query, usize::MAX).unwrap().matches.into_iter().map(|e| e.id).collect();
    let scanned: Vec<_> = index.linear_scan(&expr).into_iter().map(|i| index.events()[i].id.clone()).collect();
    assert!(!indexed.is_empty());
    assert_eq!(indexed, scanned);
}

#[test]
fn malformed_query_reports_its_error() {
    let index = SearchIndex::build(generate_events(20, 1, Scenario::Baseline));
    let error = index.query("(user:ana", 10).unwrap_err();
    assert!(!error.message.is_empty());
}

#[test]
fn index_orders_events_by_time() {
    let index = SearchIndex::build(generate_events(150, 4, Scenario::PasswordSpray));
    let events = index.events();
    assert_eq!(events.len(), 150);
    for pair in events.windows(2) {
        let (a, b) = (&pair[0], &pair[1]);
        assert!((a.timestamp.secs, a.timestamp.nanos) <= (b.timestamp.secs, b.timestamp.nanos));
    }
}

#[test]
fn plan_records_each_operator_with_its_counts() {
    let index = SearchIndex::build(generate_events(200, 42, Scenario::Mixed));
    let result = index.query("outcome:failure AND user:ana", usize::MAX).unwrap();
    let ops: Vec<_> = result.plan.steps.iter().map(|s| s.operator.as_str()).collect();
    assert_eq!(ops, vec!["POSTING_LOOKUP", "POSTING_LOOKUP", "INTERSECT"]);
    assert_eq!(result.plan.steps[0].detail, "outcome=failure");
    assert_eq!(result.plan.steps[1].detail, "user=ana");
    let step = &result.plan.steps[2];
    assert_eq!(step.input_candidates, result.plan.steps[0].output_candidates + result.plan.steps[1].output_candidates);
    assert_eq!(step.output_candidates, result.matches.len());
    assert_eq!(result.plan.operations, result.plan.steps.iter().map(|s| s.operations).sum::<usize>());
    let phrase = index.query("message:\"invalid password\"", usize::MAX).unwrap();
    assert_eq!(phrase.plan.steps[0].operator, "PHRASE_VERIFY");
    assert_eq!(phrase.plan.steps[0].detail, "intersect 2 token lists, then verify phrase");
    let prefix = index.query("host:WS-*", usize::MAX).unwrap();
    assert_eq!(prefix.plan.steps[0].operator, "TRIE_PREFIX");
    assert_eq!(prefix.plan.steps[0].detail, "host=ws-");
    let not = index.query("NOT outcome:success", usize::MAX).unwrap();
    assert_eq!(not.plan.steps[1].operator, "DIFFERENCE");
    assert_eq!(not.plan.steps[1].input_candidates, 200 + not.plan.steps[0].output_candidates);
}

#[test]
fn field_aliases_name_the_same_field() {
    let index = SearchIndex::build(generate_events(300, 9, Scenario::Mixed));
    for (alias, name) in [
        ("event_type:authentication", "type:authentication"),
        ("result:failure", "outcome:failure"),
        ("source_ip:10.20.4.17", "ip:10.20.4.17"),
        ("event_type:auth*", "type:auth*"),
        ("result:fail*", "outcome:fail*"),
        ("source_ip:10.20.*", "ip:10.20.*"),
    ] {
        let a: Vec<_> = index.query(alias, usize::MAX).unwrap().matches.into_iter().map(|e| e.id).collect();
        let b: Vec<_> = index.query(name, usize::MAX).unwrap().matches.into_iter().map(|e| e.id).collect();
        assert_eq!(a, b, "{alias} vs {name}");
    }
    let typed = index.query("event_type:authentication", usize::MAX).unwrap();
    assert!(!typed.matches.is_empty());
    let expr = parse_query("result:failure").unwrap();
    let scanned: Vec<_> = index.linear_scan(&expr).into_iter().map(|i| index.events()[i].id.clone()).collect();
    let indexed: Vec<_> = index.query("result:failure", usize::MAX).unwrap().matches.into_iter().map(|e| e.id).collect();
    assert!(!indexed.is_empty());
    assert_eq!(indexed, scanned);
}

#[test]
fn posting_merges_accept_repeats() {
    assert_eq!(difference(&[0, 1, 2, 3, 4], &[1, 3, 5]), vec![0, 2, 4]);
    assert_eq!(difference(&[2, 2, 5], &[2]), vec![5]);
    assert_eq!(difference(&[1, 1, 4, 4], &[2, 2]), vec![1, 1, 4, 4]);
    assert_eq!(difference(&[], &[1]), Vec::<usize>::new());
    assert_eq!(union(&[1, 1, 3], &[2, 3, 3]), vec![1, 2, 3]);
    assert_eq!(intersect(&[1, 2, 2, 4], &[2, 4, 4]), vec![2, 4]);
    assert_eq!(intersect(&[2, 2, 2, 5], &[2, 2, 5, 5]), vec![2, 2, 5]);
}

#[test]
fn negation_laws_hold_on_the_index() {
    let index = SearchIndex::build(generate_events(300, 3, Scenario::Mixed));
    let ids = |q: &str| -> Vec<String> {
        index.query(q, usize::MAX).unwrap().matches.into_iter().map(|e| e.id).collect()
    };
    assert_eq!(ids("NOT (NOT user:ana)"), ids("user:ana"));
    assert_eq!(
        ids("NOT (user:ana AND outcome:failure)"),
        ids("(NOT user:ana) OR (NOT outcome:failure)")
    );
    assert_eq!(
        ids("NOT (user:ana OR host:dc-01)"),
        ids("(NOT user:ana) AND (NOT host:dc-01)")
    );
    assert!(!ids("user:ana").is_empty());
}

#[test]
fn union_is_commutative_and_counts_each_list_once() {
    let a = vec![1usize, 3, 5, 7, 9];
    let b = vec![0usize, 3, 4, 9, 12];
    assert_eq!(union(&a, &b), union(&b, &a));
    assert_eq!(union(&a, &[]), a);
    assert_eq!(union(&a, &a), a);
    assert_eq!(union(&a, &b).len() + intersect(&a, &b).len(), a.len() + b.len());
}

#[test]
fn range_queries_over_a_leap_second_are_deterministic() {
    let make = |id: &str, secs: i64, nanos: u32| EventRecord {
        id: id.to_string(),
        timestamp: Timestamp::new(secs, nanos),
        source: "w".to_string(),
        event_type: "authentication".to_string(),
        user: Some("ana".to_string()),
        host: Some("ws-01".to_string()),
        source_ip: Some("10.0.0.1".to_string()),
        outcome: Outcome::Failure,
        severity: Severity::High,
        message: "Invalid password".to_string(),
        attributes: Vec::new(),
    };
    let events = vec![
        make("a", 1_483_228_799, 0),
        make("b", 1_483_228_799, 1_500_000_000),
        make("c", 1_483_228_800, 200_000_000),
        make("d", 1_483_228_801, 0),
    ];
    let index = SearchIndex::build(events);
    let query = "timestamp:[2016-12-31T23:59:59Z TO 2017-01-01T00:00:01Z] AND user:ana";
    let all = index.query(query, usize::MAX).unwrap();
    let again = index.query(query, usize::MAX).unwrap();
    let few = index.query(query, 1).unwrap();
    let ids = |r: &traceforge::index::QueryResult| r.matches.iter().map(|e| e.id.clone()).collect::<Vec<_>>();
    assert_eq!(ids(&all), ids(&again));
    assert_eq!(all.plan.candidates, few.plan.candidates);
    assert_eq!(few.matches.len(), 1.min(all.plan.candidates));
    assert_eq!(ids(&few)[..], ids(&all)[..few.matches.len()]);
}
