//! When evaluating a query through the index selects exactly the events
//! that a direct reading of each event selects.

use crate::event::{EventRecord, Outcome, Severity};
use crate::index::{
    canonical_field, direct_value, evaluated, exact_field, field_key, has_key, has_key_with_prefix, has_range, index_match,
    index_term, indexed_fields, key_field, ms, outcome_debug, positions_upto, scan_match, scan_term,
    scanned, selected, severity_debug, text_key, SearchIndex,
};
use crate::query::{folded, folded_term, lemma_query_folded, query_spec, ExprSpec, ValueSpec};
use crate::text::{contains_seq, has_white, lower, tokens};
use crate::time::Timestamp;
use vstd::prelude::*;

verus! {

/// Names under which the index files keys: the indexed fields and `text`.
pub open spec fn key_name(n: Seq<char>) -> bool {
    ||| n == "id"@
    ||| n == "source"@
    ||| n == "type"@
    ||| n == "outcome"@
    ||| n == "severity"@
    ||| n == "user"@
    ||| n == "host"@
    ||| n == "ip"@
    ||| n == "text"@
}

/// A key: a name, `=`, and the rest.
pub open spec fn keyed(n: Seq<char>, r: Seq<char>) -> Seq<char> {
    n + "="@ + r
}

/// Key names differ within their first two characters.
proof fn lemma_name_heads(n1: Seq<char>, n2: Seq<char>)
    requires
        key_name(n1),
        key_name(n2),
    ensures
        n1.len() >= 2,
        n2.len() >= 2,
        n1[0] == n2[0] && n1[1] == n2[1] ==> n1 == n2,
{
    reveal_strlit("id");
    reveal_strlit("source");
    reveal_strlit("type");
    reveal_strlit("outcome");
    reveal_strlit("severity");
    reveal_strlit("user");
    reveal_strlit("host");
    reveal_strlit("ip");
    reveal_strlit("text");
}

/// A key starts with another exactly when the names agree and the rest
/// starts with the other's rest.
proof fn lemma_keyed_prefix(n1: Seq<char>, w: Seq<char>, n2: Seq<char>, r: Seq<char>)
    requires
        key_name(n1),
        key_name(n2),
    ensures
        keyed(n1, w).is_prefix_of(keyed(n2, r)) <==> (n1 == n2 && w.is_prefix_of(r)),
{
    lemma_name_heads(n1, n2);
    reveal_strlit("=");
    let a = keyed(n1, w);
    let b = keyed(n2, r);
    assert(a[0] == n1[0] && a[1] == n1[1]);
    assert(b[0] == n2[0] && b[1] == n2[1]);
    if a.is_prefix_of(b) {
        assert(a[0] == b[0] && a[1] == b[1]);
        assert(n1 == n2);
        let m = n1.len() + 1;
        assert forall|j: int| 0 <= j < w.len() implies w[j] == r[j] by {
            assert(a[m + j] == w[j]);
            assert(b[m + j] == r[j]);
            assert(a[m + j] == b.subrange(0, a.len() as int)[m + j]);
        }
        assert(w =~= r.subrange(0, w.len() as int));
    }
    if n1 == n2 && w.is_prefix_of(r) {
        assert(a =~= b.subrange(0, a.len() as int));
    }
}

/// Keys are equal exactly when names and rests are.
proof fn lemma_keyed_eq(n1: Seq<char>, w: Seq<char>, n2: Seq<char>, r: Seq<char>)
    requires
        key_name(n1),
        key_name(n2),
    ensures
        keyed(n1, w) == keyed(n2, r) <==> (n1 == n2 && w == r),
{
    lemma_keyed_prefix(n1, w, n2, r);
    if keyed(n1, w) == keyed(n2, r) {
        assert(keyed(n1, w).is_prefix_of(keyed(n2, r)));
        assert(w.len() == r.len());
        assert(w =~= r);
    }
}

/// Field names the index files with the event's own value.
pub open spec fn indexed_name(g: Seq<char>) -> bool {
    key_name(g) && g != "text"@
}

proof fn lemma_text_key(t: Seq<char>)
    ensures
        text_key(t) == keyed("text"@, t),
{
    reveal_strlit("text=");
    reveal_strlit("text");
    reveal_strlit("=");
    assert(text_key(t) =~= keyed("text"@, t));
}

/// The names of the indexed fields of an event are indexed names.
proof fn lemma_field_names(e: EventRecord)
    ensures
        forall|i: int| 0 <= i < indexed_fields(e).len() ==> indexed_name(#[trigger] indexed_fields(e)[i].0),
{
    reveal_strlit("text");
    reveal_strlit("id");
    reveal_strlit("source");
    reveal_strlit("type");
    reveal_strlit("outcome");
    reveal_strlit("severity");
    reveal_strlit("user");
    reveal_strlit("host");
    reveal_strlit("ip");
    let f = indexed_fields(e);
    assert("type"@[1] != "text"@[1]);
    assert("user"@[0] != "text"@[0]);
    assert("host"@[0] != "text"@[0]);
    assert(indexed_name("id"@) && indexed_name("source"@) && indexed_name("type"@) && indexed_name("outcome"@));
    assert(indexed_name("severity"@) && indexed_name("user"@) && indexed_name("host"@) && indexed_name("ip"@));
    assert forall|i: int| 0 <= i < f.len() implies indexed_name(#[trigger] f[i].0) by {
        let names = seq!["id"@, "source"@, "type"@, "outcome"@, "severity"@, "user"@, "host"@, "ip"@];
        assert(exists|j: int| 0 <= j < names.len() && names[j] == f[i].0);
    }
}

/// Which keys of an event start with `keyed(g, w)`.
proof fn lemma_prefix_keys(e: EventRecord, g: Seq<char>, w: Seq<char>)
    requires
        key_name(g),
    ensures
        has_key_with_prefix(e, keyed(g, w)) <==> {
            ||| (g == "text"@ && exists|i: int| 0 <= i < tokens(e.message@).len() && w.is_prefix_of(#[trigger] tokens(e.message@)[i]))
            ||| exists|i: int| 0 <= i < indexed_fields(e).len() && indexed_fields(e)[i].0 == g && w.is_prefix_of(lower(#[trigger] indexed_fields(e)[i].1))
        },
{
    let fields = indexed_fields(e);
    let toks = tokens(e.message@);
    lemma_field_names(e);
    reveal_strlit("text");
    if has_key_with_prefix(e, keyed(g, w)) {
        let k = choose|k: Seq<char>| has_key(e, k) && #[trigger] keyed(g, w).is_prefix_of(k);
        if exists|i: int| 0 <= i < fields.len() && k == field_key(fields[i].0, fields[i].1) {
            let i = choose|i: int| 0 <= i < fields.len() && k == field_key(fields[i].0, fields[i].1);
            lemma_keyed_prefix(g, w, fields[i].0, lower(fields[i].1));
        } else {
            let i = choose|i: int| 0 <= i < toks.len() && k == text_key(#[trigger] toks[i]);
            lemma_text_key(toks[i]);
            lemma_keyed_prefix(g, w, "text"@, toks[i]);
        }
    }
    if g == "text"@ && exists|i: int| 0 <= i < toks.len() && w.is_prefix_of(#[trigger] toks[i]) {
        let i = choose|i: int| 0 <= i < toks.len() && w.is_prefix_of(#[trigger] toks[i]);
        lemma_text_key(toks[i]);
        lemma_keyed_prefix(g, w, "text"@, toks[i]);
        assert(has_key(e, text_key(toks[i])));
    }
    if exists|i: int| 0 <= i < fields.len() && fields[i].0 == g && w.is_prefix_of(lower(#[trigger] fields[i].1)) {
        let i = choose|i: int| 0 <= i < fields.len() && fields[i].0 == g && w.is_prefix_of(lower(#[trigger] fields[i].1));
        lemma_keyed_prefix(g, w, fields[i].0, lower(fields[i].1));
        assert(has_key(e, field_key(fields[i].0, fields[i].1)));
    }
}

/// Whether an event has the key `keyed(g, w)`.
proof fn lemma_exact_keys(e: EventRecord, g: Seq<char>, w: Seq<char>)
    requires
        key_name(g),
    ensures
        has_key(e, keyed(g, w)) <==> {
            ||| (g == "text"@ && tokens(e.message@).contains(w))
            ||| exists|i: int| 0 <= i < indexed_fields(e).len() && indexed_fields(e)[i].0 == g && lower(#[trigger] indexed_fields(e)[i].1) == w
        },
{
    let fields = indexed_fields(e);
    let toks = tokens(e.message@);
    lemma_field_names(e);
    reveal_strlit("text");
    let k = keyed(g, w);
    if exists|i: int| 0 <= i < fields.len() && k == field_key(fields[i].0, fields[i].1) {
        let i = choose|i: int| 0 <= i < fields.len() && k == field_key(fields[i].0, fields[i].1);
        lemma_keyed_eq(g, w, fields[i].0, lower(fields[i].1));
    }
    if exists|i: int| 0 <= i < toks.len() && k == text_key(#[trigger] toks[i]) {
        let i = choose|i: int| 0 <= i < toks.len() && k == text_key(#[trigger] toks[i]);
        lemma_text_key(toks[i]);
        lemma_keyed_eq(g, w, "text"@, toks[i]);
    }
    if g == "text"@ && toks.contains(w) {
        let i = choose|i: int| 0 <= i < toks.len() && toks[i] == w;
        lemma_text_key(toks[i]);
    }
    if exists|i: int| 0 <= i < fields.len() && fields[i].0 == g && lower(#[trigger] fields[i].1) == w {
        let i = choose|i: int| 0 <= i < fields.len() && fields[i].0 == g && lower(#[trigger] fields[i].1) == w;
        assert(k == field_key(fields[i].0, fields[i].1));
    }
}

proof fn lemma_name_facts()
    ensures
        "id"@ != "ip"@,
        "type"@ != "user"@,
        "type"@ != "host"@,
        "user"@ != "host"@,
        "id"@ != "type"@ && "id"@ != "user"@ && "id"@ != "host"@ && "id"@ != "source"@ && "id"@ != "outcome"@ && "id"@ != "severity"@,
        "ip"@ != "type"@ && "ip"@ != "user"@ && "ip"@ != "host"@ && "ip"@ != "source"@ && "ip"@ != "outcome"@ && "ip"@ != "severity"@,
        "type"@ != "source"@ && "type"@ != "outcome"@ && "type"@ != "severity"@,
        "user"@ != "source"@ && "user"@ != "outcome"@ && "user"@ != "severity"@,
        "host"@ != "source"@ && "host"@ != "outcome"@ && "host"@ != "severity"@,
        "source"@ != "outcome"@ && "source"@ != "severity"@ && "outcome"@ != "severity"@,
        lower("id"@) == "id"@,
        lower("ip"@) == "ip"@,
        lower("type"@) == "type"@,
        lower("user"@) == "user"@,
        lower("host"@) == "host"@,
        lower("source"@) == "source"@,
        lower("outcome"@) == "outcome"@,
        lower("severity"@) == "severity"@,
{
    reveal_strlit("id");
    reveal_strlit("source");
    reveal_strlit("type");
    reveal_strlit("outcome");
    reveal_strlit("severity");
    reveal_strlit("user");
    reveal_strlit("host");
    reveal_strlit("ip");
    assert("id"@[1] != "ip"@[1]);
    assert("type"@[0] != "user"@[0]);
    assert("type"@[0] != "host"@[0]);
    assert("user"@[0] != "host"@[0]);
    assert(lower("id"@) =~= "id"@);
    assert(lower("ip"@) =~= "ip"@);
    assert(lower("type"@) =~= "type"@);
    assert(lower("user"@) =~= "user"@);
    assert(lower("host"@) =~= "host"@);
    assert(lower("source"@) =~= "source"@);
    assert(lower("outcome"@) =~= "outcome"@);
    assert(lower("severity"@) =~= "severity"@);
}

/// The index files an outcome and a severity under their names, up to case.
proof fn lemma_enum_names(o: Outcome, v: Severity)
    ensures
        lower(outcome_debug(o)) == lower(o.name()),
        lower(severity_debug(v)) == lower(v.name()),
{
    reveal_strlit("Success");
    reveal_strlit("Failure");
    reveal_strlit("Unknown");
    reveal_strlit("success");
    reveal_strlit("failure");
    reveal_strlit("unknown");
    reveal_strlit("Info");
    reveal_strlit("Low");
    reveal_strlit("Medium");
    reveal_strlit("High");
    reveal_strlit("Critical");
    reveal_strlit("info");
    reveal_strlit("low");
    reveal_strlit("medium");
    reveal_strlit("high");
    reveal_strlit("critical");
    assert(lower(outcome_debug(o)) =~= lower(o.name()));
    assert(lower(severity_debug(v)) =~= lower(v.name()));
}

/// Under an indexed name the index holds the value a query reads from
/// the event, up to case.
proof fn lemma_indexed_lookup(e: EventRecord, g: Seq<char>, q: spec_fn(Seq<char>) -> bool)
    requires
        indexed_name(g),
    ensures
        (exists|i: int| 0 <= i < indexed_fields(e).len() && indexed_fields(e)[i].0 == g && q(lower(#[trigger] indexed_fields(e)[i].1)))
            <==> (e.field_value(g) matches Some(c) && q(lower(c))),
        lower(g) == g,
{
    lemma_name_facts();
    lemma_enum_names(e.outcome, e.severity);
    reveal_strlit("text");
    reveal_strlit("event_type");
    reveal_strlit("source_ip");
    reveal_strlit("result");
    reveal_strlit("message");
    reveal_strlit("source");
    reveal_strlit("outcome");
    reveal_strlit("id");
    reveal_strlit("type");
    reveal_strlit("severity");
    reveal_strlit("user");
    reveal_strlit("host");
    reveal_strlit("ip");
    assert("result"@[0] != "source"@[0]);
    assert("message"@[0] != "outcome"@[0]);
    let f = indexed_fields(e);
    let base = seq![
        ("id"@, e.id@),
        ("source"@, e.source@),
        ("type"@, e.event_type@),
        ("outcome"@, outcome_debug(e.outcome)),
        ("severity"@, severity_debug(e.severity)),
    ];
    if exists|i: int| 0 <= i < f.len() && f[i].0 == g && q(lower(#[trigger] f[i].1)) {
        let i = choose|i: int| 0 <= i < f.len() && f[i].0 == g && q(lower(#[trigger] f[i].1));
        assert(e.field_value(g) matches Some(c) && q(lower(c)));
    }
    if e.field_value(g) matches Some(c) && q(lower(c)) {
        if g == "id"@ {
            assert(f[0].0 == g && q(lower(f[0].1)));
        } else if g == "source"@ {
            assert(f[1].0 == g && q(lower(f[1].1)));
        } else if g == "type"@ {
            assert(f[2].0 == g && q(lower(f[2].1)));
        } else if g == "outcome"@ {
            assert(f[3].0 == g && q(lower(f[3].1)));
        } else if g == "severity"@ {
            assert(f[4].0 == g && q(lower(f[4].1)));
        } else if g == "user"@ {
            assert(f[5].0 == g && q(lower(f[5].1)));
        } else if g == "host"@ {
            let j: int = if e.user is Some { 6 } else { 5 };
            assert(f[j].0 == g && q(lower(f[j].1)));
        } else {
            let j: int = 5 + (if e.user is Some { 1int } else { 0int }) + (if e.host is Some { 1int } else { 0int });
            assert(f[j].0 == g && q(lower(f[j].1)));
        }
    }
}

/// An instant on a whole millisecond, outside any leap second.
pub open spec fn whole_ms(t: Timestamp) -> bool {
    t.nanos < 1_000_000_000 && t.nanos % 1_000_000 == 0
}

/// When a phrase occurs in the message (case folded), it occurs as whole
/// tokens: it has tokens, and each is a token of the message.
pub open spec fn phrase_on_tokens(e: EventRecord, value: Seq<char>) -> bool {
    has_white(value) && contains_seq(lower(e.message@), value) ==> {
        let terms = tokens(value);
        &&& terms.len() > 0
        &&& forall|i: int| 0 <= i < terms.len() ==> tokens(e.message@).contains(#[trigger] terms[i])
    }
}

/// A field that a query reads the same way the index files it: `text`
/// (message tokens) when the event has no attribute of that name, or an
/// indexed field, by its name or another, that the event has.
pub open spec fn same_field(e: EventRecord, g: Seq<char>) -> bool {
    if g == "text"@ {
        e.field_value(g) is None
    } else {
        indexed_name(canonical_field(g)) && e.field_value(g) is Some
    }
}

/// Only `text` is filed under `text`, and only `message` is `message`.
proof fn lemma_canonical_text(g: Seq<char>)
    ensures
        canonical_field(g) == "text"@ <==> g == "text"@,
        canonical_field(g) == "message"@ <==> g == "message"@,
{
    reveal_strlit("event_type");
    reveal_strlit("source_ip");
    reveal_strlit("result");
    reveal_strlit("type");
    reveal_strlit("ip");
    reveal_strlit("outcome");
    reveal_strlit("text");
    reveal_strlit("message");
    assert("type"@[1] != "text"@[1]);
    assert("outcome"@[0] != "message"@[0]);
    if g == "text"@ {
        assert(g.len() == 4);
        assert("event_type"@.len() == 10 && "source_ip"@.len() == 9 && "result"@.len() == 6);
    }
}

/// A query reads a field under another name as under its indexed name.
proof fn lemma_alias_value(e: EventRecord, g: Seq<char>)
    ensures
        e.field_value(g) == e.field_value(canonical_field(g)),
{
    reveal_strlit("event_type");
    reveal_strlit("source_ip");
    reveal_strlit("result");
    reveal_strlit("type");
    reveal_strlit("ip");
    reveal_strlit("outcome");
    reveal_strlit("id");
    reveal_strlit("source");
    reveal_strlit("user");
    reveal_strlit("host");
    reveal_strlit("severity");
    reveal_strlit("message");
    assert("ip"@[1] != "id"@[1]);
    assert("result"@[0] != "source"@[0]);
    assert("type"@[0] != "user"@[0]);
    assert("type"@[0] != "host"@[0]);
    if g == "event_type"@ {
        assert(lower(g) =~= g);
        assert(lower("type"@) =~= "type"@);
    } else if g == "source_ip"@ {
        assert(lower(g) =~= g);
        assert(lower("ip"@) =~= "ip"@);
    } else if g == "result"@ {
        assert(lower(g) =~= g);
        assert(lower("outcome"@) =~= "outcome"@);
    }
}

/// The event and the term are ones on which the index and a direct
/// reading agree: time bounds and the event's time fall on whole
/// milliseconds, fields are read as they are filed, and phrases occur as
/// whole tokens.
pub open spec fn faithful_term(e: EventRecord, field: Option<Seq<char>>, v: ValueSpec) -> bool {
    match v {
        ValueSpec::TimeRange(start, end) => whole_ms(start) && whole_ms(end) && whole_ms(e.timestamp),
        ValueSpec::Exact(value) => match field {
            None => phrase_on_tokens(e, value),
            Some(g) => if g == "message"@ {
                phrase_on_tokens(e, value)
            } else {
                same_field(e, g) && (g == "text"@ ==> phrase_on_tokens(e, value))
            },
        },
        ValueSpec::Prefix(_) => match field {
            None => true,
            Some(g) => same_field(e, g),
        },
    }
}

/// Every term of the expression is faithful for the event.
pub open spec fn faithful(e: EventRecord, x: ExprSpec) -> bool
    decreases x,
{
    match x {
        ExprSpec::Term(f, v) => faithful_term(e, f, v),
        ExprSpec::And(a, b) => faithful(e, *a) && faithful(e, *b),
        ExprSpec::Or(a, b) => faithful(e, *a) && faithful(e, *b),
        ExprSpec::Not(a) => faithful(e, *a),
    }
}

/// On whole milliseconds, comparing instants and comparing their
/// milliseconds agree.
proof fn lemma_ms_order(a: Timestamp, b: Timestamp)
    requires
        whole_ms(a),
        whole_ms(b),
    ensures
        a.lt(b) <==> ms(a) < ms(b),
{
    let ka = a.nanos / 1_000_000;
    let kb = b.nanos / 1_000_000;
    assert(a.nanos == ka * 1_000_000);
    assert(b.nanos == kb * 1_000_000);
    assert(0 <= ka < 1000);
    assert(0 <= kb < 1000);
}

proof fn lemma_term_agrees(e: EventRecord, field: Option<Seq<char>>, v: ValueSpec)
    requires
        folded_term(field, v),
        faithful_term(e, field, v),
    ensures
        index_term(e, field, v) == scan_term(e, field, v),
{
    reveal_strlit("text");
    reveal_strlit("message");
    let toks = tokens(e.message@);
    match v {
        ValueSpec::TimeRange(start, end) => {
            lemma_ms_order(e.timestamp, start);
            lemma_ms_order(end, e.timestamp);
        },
        ValueSpec::Exact(value) => {
            let f = exact_field(field);
            if field is Some {
                lemma_canonical_text(field->Some_0);
            }
            if f == "text"@ {
                assert(direct_value(e, field, true) is None);
                if has_white(value) {
                    let terms = tokens(value);
                    assert forall|i: int| 0 <= i < terms.len() implies has_key(e, text_key(#[trigger] terms[i])) == toks.contains(terms[i]) by {
                        lemma_text_key(terms[i]);
                        lemma_exact_keys(e, "text"@, terms[i]);
                        lemma_field_names(e);
                    }
                } else {
                    lemma_exact_keys(e, "text"@, lower(value));
                    lemma_field_names(e);
                }
            } else {
                let g = field->Some_0;
                let cg = canonical_field(g);
                lemma_alias_value(e, g);
                assert(indexed_name(cg));
                lemma_exact_keys(e, cg, lower(value));
                lemma_indexed_lookup(e, cg, |c: Seq<char>| c == value);
            }
        },
        ValueSpec::Prefix(p) => {
            let kf = key_field(field);
            if field is Some {
                lemma_canonical_text(field->Some_0);
            }
            if kf == "text"@ {
                assert(direct_value(e, field, false) is None);
                lemma_prefix_keys(e, "text"@, lower(p));
                lemma_field_names(e);
            } else {
                let g = field->Some_0;
                let cg = canonical_field(g);
                lemma_alias_value(e, g);
                lemma_prefix_keys(e, cg, lower(p));
                lemma_indexed_lookup(e, cg, |c: Seq<char>| p.is_prefix_of(c));
            }
        },
    }
}

/// On a faithful event, the index selects it for an expression exactly
/// when a direct reading does.
pub proof fn lemma_match_agrees(e: EventRecord, x: ExprSpec)
    requires
        folded(x),
        faithful(e, x),
    ensures
        index_match(e, x) == scan_match(e, x),
    decreases x,
{
    match x {
        ExprSpec::Term(f, v) => lemma_term_agrees(e, f, v),
        ExprSpec::And(a, b) => {
            lemma_match_agrees(e, *a);
            lemma_match_agrees(e, *b);
        },
        ExprSpec::Or(a, b) => {
            lemma_match_agrees(e, *a);
            lemma_match_agrees(e, *b);
        },
        ExprSpec::Not(a) => lemma_match_agrees(e, *a),
    }
}

proof fn lemma_positions_agree(
    events: Seq<EventRecord>,
    p1: spec_fn(EventRecord) -> bool,
    p2: spec_fn(EventRecord) -> bool,
    k: int,
)
    requires
        k <= events.len(),
        forall|i: int| 0 <= i < k ==> p1(#[trigger] events[i]) == p2(events[i]),
    ensures
        positions_upto(events, p1, k) == positions_upto(events, p2, k),
    decreases k,
{
    if k > 0 {
        lemma_positions_agree(events, p1, p2, k - 1);
        assert(p1(events[k - 1]) == p2(events[k - 1]));
    }
}

/// A faithful event for an expression with a time range lies on a whole
/// millisecond.
proof fn lemma_range_whole_ms(e: EventRecord, x: ExprSpec)
    requires
        faithful(e, x),
        has_range(x),
    ensures
        whole_ms(e.timestamp),
    decreases x,
{
    match x {
        ExprSpec::Term(_, _) => {},
        ExprSpec::And(a, b) => if has_range(*a) {
            lemma_range_whole_ms(e, *a);
        } else {
            lemma_range_whole_ms(e, *b);
        },
        ExprSpec::Or(a, b) => if has_range(*a) {
            lemma_range_whole_ms(e, *a);
        } else {
            lemma_range_whole_ms(e, *b);
        },
        ExprSpec::Not(a) => lemma_range_whole_ms(e, *a),
    }
}

/// Indexed evaluation equals a linear scan: for a parsed query to which
/// every indexed event is faithful, the events the index selects are
/// exactly those a direct reading of each event selects, and a time range
/// is answered from a temporal vector in time order.
pub proof fn lemma_indexed_equals_linear(index: SearchIndex, q: Seq<char>)
    requires
        index.wf(),
        query_spec(q) is Ok,
        forall|i: int|
            0 <= i < index.event_seq().len() ==> faithful(#[trigger] index.event_seq()[i], query_spec(q)->Ok_0),
    ensures
        selected(index.event_seq(), query_spec(q)->Ok_0) == scanned(index.event_seq(), query_spec(q)->Ok_0),
        evaluated(index.event_seq(), query_spec(q)->Ok_0) == scanned(index.event_seq(), query_spec(q)->Ok_0),
        !has_range(query_spec(q)->Ok_0) || index.temporal_sorted(),
{
    let x = query_spec(q)->Ok_0;
    let events = index.event_seq();
    lemma_query_folded(q);
    assert forall|i: int| 0 <= i < events.len() implies index_match(#[trigger] events[i], x) == scan_match(events[i], x) by {
        lemma_match_agrees(events[i], x);
    }
    lemma_positions_agree(
        events,
        |e: EventRecord| index_match(e, x),
        |e: EventRecord| scan_match(e, x),
        events.len() as int,
    );
    if has_range(x) {
        assert forall|i: int| 0 <= i < events.len() implies (#[trigger] events[i]).timestamp.nanos < 1_000_000_000 by {
            lemma_range_whole_ms(events[i], x);
        }
        index.lemma_temporal_sorted();
    }
    index.lemma_evaluated_selected(x);
}

/// A term in plain shape: a time range with bounds on whole
/// milliseconds, a value or prefix of an indexed field (named directly or
/// by another name), a prefix of a message token, or one message token.
pub open spec fn plain_term(field: Option<Seq<char>>, v: ValueSpec) -> bool {
    match v {
        ValueSpec::TimeRange(start, end) => whole_ms(start) && whole_ms(end),
        ValueSpec::Exact(value) => match field {
            None => !has_white(value),
            Some(g) => indexed_name(canonical_field(g)),
        },
        ValueSpec::Prefix(_) => match field {
            None => true,
            Some(g) => indexed_name(canonical_field(g)),
        },
    }
}

/// Every term of the expression is in plain shape.
pub open spec fn plain(x: ExprSpec) -> bool
    decreases x,
{
    match x {
        ExprSpec::Term(f, v) => plain_term(f, v),
        ExprSpec::And(a, b) => plain(*a) && plain(*b),
        ExprSpec::Or(a, b) => plain(*a) && plain(*b),
        ExprSpec::Not(a) => plain(*a),
    }
}

/// An event with a user, a host and an address.
pub open spec fn complete_event(e: EventRecord) -> bool {
    e.user is Some && e.host is Some && e.source_ip is Some
}

/// A complete event has a value under every indexed name.
proof fn lemma_complete_fields(e: EventRecord, n: Seq<char>)
    requires
        complete_event(e),
        indexed_name(n),
    ensures
        e.field_value(n) is Some,
{
    lemma_indexed_lookup(e, n, |c: Seq<char>| true);
    lemma_name_facts();
    let f = indexed_fields(e);
    if n == "id"@ {
        assert(f[0].0 == n);
    } else if n == "source"@ {
        assert(f[1].0 == n);
    } else if n == "type"@ {
        assert(f[2].0 == n);
    } else if n == "outcome"@ {
        assert(f[3].0 == n);
    } else if n == "severity"@ {
        assert(f[4].0 == n);
    } else if n == "user"@ {
        assert(f[5].0 == n);
    } else if n == "host"@ {
        assert(f[6].0 == n);
    } else {
        assert(f[7].0 == n);
    }
}

proof fn lemma_plain_faithful(e: EventRecord, x: ExprSpec)
    requires
        complete_event(e),
        plain(x),
        has_range(x) ==> whole_ms(e.timestamp),
    ensures
        faithful(e, x),
    decreases x,
{
    match x {
        ExprSpec::Term(f, v) => {
            if f is Some {
                let g = f->Some_0;
                lemma_canonical_text(g);
                lemma_alias_value(e, g);
                match v {
                    ValueSpec::TimeRange(_, _) => {},
                    _ => {
                        lemma_complete_fields(e, canonical_field(g));
                        reveal_strlit("text");
                        reveal_strlit("message");
                        reveal_strlit("id");
                        reveal_strlit("source");
                        reveal_strlit("type");
                        reveal_strlit("outcome");
                        reveal_strlit("severity");
                        reveal_strlit("user");
                        reveal_strlit("host");
                        reveal_strlit("ip");
                        assert("outcome"@[0] != "message"@[0]);
                        assert("message"@.len() == 7);
                        assert(canonical_field(g) != "message"@);
                    },
                }
            }
        },
        ExprSpec::And(a, b) => {
            lemma_plain_faithful(e, *a);
            lemma_plain_faithful(e, *b);
        },
        ExprSpec::Or(a, b) => {
            lemma_plain_faithful(e, *a);
            lemma_plain_faithful(e, *b);
        },
        ExprSpec::Not(a) => lemma_plain_faithful(e, *a),
    }
}

/// Indexed evaluation equals a linear scan for a parsed query in plain
/// shape over events that each have a user, a host and an address and,
/// when the query has a time range, fall on whole milliseconds.
pub proof fn lemma_plain_indexed_equals_linear(index: SearchIndex, q: Seq<char>)
    requires
        index.wf(),
        query_spec(q) is Ok,
        plain(query_spec(q)->Ok_0),
        forall|i: int| 0 <= i < index.event_seq().len() ==> complete_event(#[trigger] index.event_seq()[i]),
        has_range(query_spec(q)->Ok_0) ==> forall|i: int|
            0 <= i < index.event_seq().len() ==> whole_ms(#[trigger] index.event_seq()[i].timestamp),
    ensures
        selected(index.event_seq(), query_spec(q)->Ok_0) == scanned(index.event_seq(), query_spec(q)->Ok_0),
        evaluated(index.event_seq(), query_spec(q)->Ok_0) == scanned(index.event_seq(), query_spec(q)->Ok_0),
        !has_range(query_spec(q)->Ok_0) || index.temporal_sorted(),
{
    let x = query_spec(q)->Ok_0;
    assert forall|i: int| 0 <= i < index.event_seq().len() implies faithful(#[trigger] index.event_seq()[i], x) by {
        lemma_plain_faithful(index.event_seq()[i], x);
    }
    lemma_indexed_equals_linear(index, q);
}

} // verus!
