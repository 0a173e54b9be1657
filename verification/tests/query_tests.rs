use traceforge::query::{parse_query, Expr, MatchValue};

#[test]
fn and_binds_more_tightly_than_or() {
    let parsed = parse_query("user:ana OR host:dc01 AND NOT outcome:success").unwrap();
    assert!(matches!(parsed, Expr::Or(_, _)));
    let Expr::Or(_, right) = parsed else {
        unreachable!()
    };
    assert!(matches!(*right, Expr::And(_, _)));
}

#[test]
fn supports_quoted_values_and_implicit_and() {
    let parsed = parse_query("message:\"invalid password\" severity:high").unwrap();
    assert!(matches!(parsed, Expr::And(_, _)));
}

#[test]
fn rejects_unclosed_groups() {
    assert!(parse_query("(user:ana OR host:dc01").is_err());
}

#[test]
fn parses_rfc3339_ranges() {
    let parsed = parse_query("timestamp:[2026-01-01T00:00:00Z TO 2026-01-01T01:00:00Z]").unwrap();
    assert!(matches!(
        parsed,
        Expr::Term {
            value: MatchValue::TimeRange { .. },
            ..
        }
    ));
}

#[test]
fn range_bounds_are_the_parsed_instants() {
    let parsed = parse_query("timestamp:[2026-01-01T00:00:00Z TO 2026-01-01T01:00:00.5Z]").unwrap();
    match parsed {
        Expr::Term { field, value: MatchValue::TimeRange { start, end } } => {
            assert_eq!(field.as_deref(), Some("timestamp"));
            assert_eq!((start.secs, start.nanos), (1767225600, 0));
            assert_eq!((end.secs, end.nanos), (1767229200, 500_000_000));
        }
        other => panic!("unexpected {other:?}"),
    }
}

#[test]
fn trailing_star_makes_a_prefix() {
    match parse_query("host:ws-*").unwrap() {
        Expr::Term { field, value: MatchValue::Prefix(p) } => {
            assert_eq!(field.as_deref(), Some("host"));
            assert_eq!(p, "ws-");
        }
        other => panic!("unexpected {other:?}"),
    }
}

#[test]
fn bare_words_have_no_field() {
    match parse_query("ana").unwrap() {
        Expr::Term { field, value: MatchValue::Exact(v) } => {
            assert!(field.is_none());
            assert_eq!(v, "ana");
        }
        other => panic!("unexpected {other:?}"),
    }
}

#[test]
fn empty_query_is_an_error() {
    let error = parse_query("   ").unwrap_err();
    assert!(!error.message.is_empty());
}

#[test]
fn invalid_range_is_an_error() {
    assert!(parse_query("timestamp:[yesterday TO today]").is_err());
    assert!(parse_query("user:ana)").is_err());
}

#[test]
fn error_positions_count_characters() {
    let error = parse_query("é \"x").unwrap_err();
    assert_eq!(error.position, 2);
    assert_eq!(error.message, "unterminated quoted value");
    let error = parse_query("ü:ä)").unwrap_err();
    assert_eq!(error.position, 3);
    assert_eq!(error.message, "unexpected token");
}

#[test]
fn quoted_values_are_literal() {
    match parse_query("message:\"pass*\"").unwrap() {
        Expr::Term { field, value: MatchValue::Exact(v) } => {
            assert_eq!(field.as_deref(), Some("message"));
            assert_eq!(v, "pass*");
        }
        other => panic!("unexpected {other:?}"),
    }
    match parse_query("\"Pass*\"").unwrap() {
        Expr::Term { field, value: MatchValue::Exact(v) } => {
            assert!(field.is_none());
            assert_eq!(v, "pass*");
        }
        other => panic!("unexpected {other:?}"),
    }
}
