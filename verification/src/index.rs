//! The search index: every event is filed under `field=value` keys and
//! under `text=token` keys for the tokens of its message, in a trie that
//! answers both exact and prefix lookups; a temporal vector answers time
//! ranges. Query results are ordered lists of event positions.

use crate::event::{copy_event, EventRecord, Outcome, Severity};
use crate::postings::{
    difference, index_positions, intersect, lemma_index_positions_facts, lemma_index_positions_unique, sorted_unique,
    union,
};
use crate::query::{err_view, parse_query, query_spec, Expr, ExprSpec, MatchValue, ParseError, ValueSpec};
use crate::sort::{key_views, ordered, permute, stable_order, SortKey};
use crate::text::{
    chars_of, contains_exec, dec, contains_seq, copy_chars, extend_chars, has_white, has_white_exec,
    is_lit, lower, opt_view, push_dec, push_str, seq_eq, starts_with_exec, string_of, to_lower,
    tokenize, tokens, views,
};
use crate::time::Timestamp;
use crate::trie::{has_prefix_entry, PrefixTrie};
use vstd::prelude::*;

verus! {

broadcast use vstd::string::group_string_axioms;

/// How `{:?}` spells an outcome.
pub open spec fn outcome_debug(o: Outcome) -> Seq<char> {
    match o {
        Outcome::Success => "Success"@,
        Outcome::Failure => "Failure"@,
        Outcome::Unknown => "Unknown"@,
    }
}

/// How `{:?}` spells a severity.
pub open spec fn severity_debug(s: Severity) -> Seq<char> {
    match s {
        Severity::Info => "Info"@,
        Severity::Low => "Low"@,
        Severity::Medium => "Medium"@,
        Severity::High => "High"@,
        Severity::Critical => "Critical"@,
    }
}

/// The (field, value) pairs an event is filed under.
pub open spec fn indexed_fields(e: EventRecord) -> Seq<(Seq<char>, Seq<char>)> {
    let base = seq![
        ("id"@, e.id@),
        ("source"@, e.source@),
        ("type"@, e.event_type@),
        ("outcome"@, outcome_debug(e.outcome)),
        ("severity"@, severity_debug(e.severity)),
    ];
    let with_user = match e.user {
        Some(u) => base.push(("user"@, u@)),
        None => base,
    };
    let with_host = match e.host {
        Some(h) => with_user.push(("host"@, h@)),
        None => with_user,
    };
    match e.source_ip {
        Some(ip) => with_host.push(("ip"@, ip@)),
        None => with_host,
    }
}

/// Index key for a field value: `field=value`, the value lowercased.
pub open spec fn field_key(field: Seq<char>, value: Seq<char>) -> Seq<char> {
    field + "="@ + lower(value)
}

/// Index key for a message token.
pub open spec fn text_key(token: Seq<char>) -> Seq<char> {
    "text="@ + token
}

/// The keys an event is filed under.
pub open spec fn has_key(e: EventRecord, k: Seq<char>) -> bool {
    let fields = indexed_fields(e);
    let toks = tokens(e.message@);
    ||| exists|i: int| 0 <= i < fields.len() && k == field_key(fields[i].0, fields[i].1)
    ||| exists|i: int| 0 <= i < toks.len() && k == text_key(#[trigger] toks[i])
}

/// Order in which the index keeps events: by time, then by id.
pub open spec fn event_before(a: EventRecord, b: EventRecord) -> bool {
    a.timestamp.lt(b.timestamp) || (a.timestamp == b.timestamp && crate::sort::text_lt(a.id@, b.id@))
}

/// Events listed by time, then id.
pub open spec fn events_in_order(s: Seq<EventRecord>) -> bool {
    forall|i: int, j: int| 0 <= i < j < s.len() ==> !event_before(#[trigger] s[j], #[trigger] s[i])
}

/// `out` is `input` stably sorted by time, then id: a rearrangement that
/// keeps events with equal time and id in their input order.
pub open spec fn stably_sorted(input: Seq<EventRecord>, out: Seq<EventRecord>) -> bool {
    exists|order: Seq<usize>|
        {
            &&& order.len() == input.len()
            &&& out.len() == input.len()
            &&& forall|k: int| 0 <= k < order.len() ==> (#[trigger] order[k] as int) < input.len()
            &&& forall|a: int, b: int|
                0 <= a < b < order.len() ==> {
                    ||| event_before(input[#[trigger] order[a] as int], input[#[trigger] order[b] as int])
                    ||| (!event_before(input[order[b] as int], input[order[a] as int]) && order[a] < order[b])
                }
            &&& forall|k: int| 0 <= k < out.len() ==> #[trigger] out[k] == input[order[k] as int]
        }
}

/// Every timestamp is one `chrono` represents.
pub open spec fn times_wf(s: Seq<EventRecord>) -> bool {
    forall|i: int| 0 <= i < s.len() ==> (#[trigger] s[i]).timestamp.wf()
}

fn key_of(field: &str, value: &[char]) -> (r: Vec<char>)
    ensures
        r@ == field_key(field@, value@),
{
    let mut r = chars_of(field);
    let eq = chars_of("=");
    extend_chars(&mut r, eq.as_slice());
    let low = to_lower(value);
    extend_chars(&mut r, low.as_slice());
    r
}

fn canonical_field_exec(f: Vec<char>) -> (r: Vec<char>)
    ensures
        r@ == canonical_field(f@),
{
    if is_lit(f.as_slice(), "event_type") {
        chars_of("type")
    } else if is_lit(f.as_slice(), "source_ip") {
        chars_of("ip")
    } else if is_lit(f.as_slice(), "result") {
        chars_of("outcome")
    } else {
        f
    }
}

fn text_key_of(token: &[char]) -> (r: Vec<char>)
    ensures
        r@ == text_key(token@),
{
    let mut r = chars_of("text=");
    extend_chars(&mut r, token);
    r
}

fn outcome_debug_exec(o: Outcome) -> (r: &'static str)
    ensures
        r@ == outcome_debug(o),
{
    match o {
        Outcome::Success => "Success",
        Outcome::Failure => "Failure",
        Outcome::Unknown => "Unknown",
    }
}

fn severity_debug_exec(s: Severity) -> (r: &'static str)
    ensures
        r@ == severity_debug(s),
{
    match s {
        Severity::Info => "Info",
        Severity::Low => "Low",
        Severity::Medium => "Medium",
        Severity::High => "High",
        Severity::Critical => "Critical",
    }
}

/// The keys an event is filed under, as a list.
fn event_keys(e: &EventRecord) -> (r: Vec<Vec<char>>)
    ensures
        forall|k: Seq<char>| views(r@).contains(k) <==> has_key(*e, k),
{
    let ghost fields = indexed_fields(*e);
    let mut keys: Vec<Vec<char>> = Vec::new();
    keys.push(key_of("id", chars_of(e.id.as_str()).as_slice()));
    keys.push(key_of("source", chars_of(e.source.as_str()).as_slice()));
    keys.push(key_of("type", chars_of(e.event_type.as_str()).as_slice()));
    keys.push(key_of("outcome", chars_of(outcome_debug_exec(e.outcome)).as_slice()));
    keys.push(key_of("severity", chars_of(severity_debug_exec(e.severity)).as_slice()));
    let ghost mut listed: Seq<(Seq<char>, Seq<char>)> = seq![
        ("id"@, e.id@),
        ("source"@, e.source@),
        ("type"@, e.event_type@),
        ("outcome"@, outcome_debug(e.outcome)),
        ("severity"@, severity_debug(e.severity)),
    ];
    match &e.user {
        Some(u) => {
            keys.push(key_of("user", chars_of(u.as_str()).as_slice()));
            proof {
                listed = listed.push(("user"@, u@));
            }
        },
        None => {},
    }
    match &e.host {
        Some(h) => {
            keys.push(key_of("host", chars_of(h.as_str()).as_slice()));
            proof {
                listed = listed.push(("host"@, h@));
            }
        },
        None => {},
    }
    match &e.source_ip {
        Some(ip) => {
            keys.push(key_of("ip", chars_of(ip.as_str()).as_slice()));
            proof {
                listed = listed.push(("ip"@, ip@));
            }
        },
        None => {},
    }
    assert(listed == fields);
    assert(views(keys@).len() == fields.len());
    assert forall|i: int| 0 <= i < fields.len() implies views(keys@)[i] == field_key(
        fields[i].0,
        fields[i].1,
    ) by {}
    let nf = keys.len();
    let msg = chars_of(e.message.as_str());
    let toks = tokenize(msg.as_slice());
    let mut j: usize = 0;
    while j < toks.len()
        invariant
            nf == fields.len(),
            views(toks@) == tokens(e.message@),
            j <= toks.len(),
            keys.len() == nf + j,
            forall|i: int| 0 <= i < nf ==> views(keys@)[i] == field_key(fields[i].0, fields[i].1),
            forall|i: int| 0 <= i < j ==> views(keys@)[nf + i] == text_key(views(toks@)[i]),
        decreases toks.len() - j,
    {
        let k = text_key_of(toks[j].as_slice());
        let ghost before = views(keys@);
        let ghost kv = k@;
        keys.push(k);
        assert(views(keys@) =~= before.push(kv));
        j += 1;
    }
    proof {
        let toks_s = tokens(e.message@);
        assert forall|k: Seq<char>| views(keys@).contains(k) <==> has_key(*e, k) by {
            if views(keys@).contains(k) {
                let i = choose|i: int| 0 <= i < views(keys@).len() && views(keys@)[i] == k;
                if i < nf {
                } else {
                    assert(toks_s[i - nf] == views(toks@)[i - nf]);
                }
            }
            if has_key(*e, k) {
                if exists|i: int| 0 <= i < fields.len() && k == field_key(fields[i].0, fields[i].1) {
                    let i = choose|i: int| 0 <= i < fields.len() && k == field_key(fields[i].0, fields[i].1);
                    assert(views(keys@)[i] == k);
                } else {
                    let i = choose|i: int| 0 <= i < toks_s.len() && k == text_key(#[trigger] toks_s[i]);
                    assert(views(keys@)[nf + i] == k);
                }
            }
        }
    }
    keys
}

/// Events with the same time and id are ordered alike.
pub open spec fn same_key(a: EventRecord, b: EventRecord) -> bool {
    a.timestamp == b.timestamp && a.id@ == b.id@
}

proof fn lemma_before_irrefl(a: EventRecord)
    ensures
        !event_before(a, a),
{
    crate::sort::lemma_text_lt_irrefl(a.id@);
}

proof fn lemma_before_trans(a: EventRecord, b: EventRecord, c: EventRecord)
    requires
        event_before(a, b),
        event_before(b, c),
    ensures
        event_before(a, c),
{
    if a.timestamp == b.timestamp && b.timestamp == c.timestamp {
        crate::sort::lemma_text_lt_trans(a.id@, b.id@, c.id@);
    }
}

pub proof fn lemma_before_total(a: EventRecord, b: EventRecord)
    ensures
        event_before(a, b) || event_before(b, a) || same_key(a, b),
{
    crate::sort::lemma_text_lt_total(a.id@, b.id@);
}

/// Position `a` comes before position `b` in the stable order.
pub open spec fn prec(input: Seq<EventRecord>, a: int, b: int) -> bool {
    event_before(input[a], input[b]) || (!event_before(input[b], input[a]) && a < b)
}

pub proof fn lemma_prec_facts(input: Seq<EventRecord>, a: int, b: int, c: int)
    ensures
        !prec(input, a, a),
        prec(input, a, b) ==> !prec(input, b, a),
        prec(input, a, b) && prec(input, b, c) ==> prec(input, a, c),
        a != b ==> prec(input, a, b) || prec(input, b, a),
{
    lemma_before_irrefl(input[a]);
    lemma_before_total(input[a], input[b]);
    lemma_before_total(input[b], input[c]);
    lemma_before_total(input[a], input[c]);
    if event_before(input[a], input[b]) && event_before(input[b], input[a]) {
        lemma_before_trans(input[a], input[b], input[a]);
    }
    if event_before(input[a], input[b]) && event_before(input[b], input[c]) {
        lemma_before_trans(input[a], input[b], input[c]);
    }
    if event_before(input[c], input[a]) && event_before(input[a], input[b]) {
        lemma_before_trans(input[c], input[a], input[b]);
    }
    if event_before(input[b], input[c]) && event_before(input[c], input[a]) {
        lemma_before_trans(input[b], input[c], input[a]);
    }
    if event_before(input[a], input[c]) && event_before(input[c], input[b]) {
        lemma_before_trans(input[a], input[c], input[b]);
    }
    if event_before(input[c], input[b]) && event_before(input[b], input[a]) {
        lemma_before_trans(input[c], input[b], input[a]);
    }
}

/// `order` lists every position once, in stable order.
pub open spec fn stable_listing(input: Seq<EventRecord>, order: Seq<usize>) -> bool {
    &&& order.len() == input.len()
    &&& forall|k: int| 0 <= k < order.len() ==> (#[trigger] order[k] as int) < input.len()
    &&& forall|a: int, b: int| 0 <= a < b < order.len() ==> prec(input, #[trigger] order[a] as int, #[trigger] order[b] as int)
}

/// A stable listing holds every position, and the first `k` entries are
/// exactly the positions that come before entry `k`.
proof fn lemma_listing_prefix(input: Seq<EventRecord>, order: Seq<usize>, k: int)
    requires
        stable_listing(input, order),
        input.len() <= usize::MAX,
        0 <= k < order.len(),
    ensures
        order.take(k).no_duplicates(),
        forall|y: usize| order.take(k).to_set().contains(y) <==> ((y as int) < input.len() && prec(input, y as int, order[k] as int)),
{
    let n = input.len();
    assert forall|a: int, b: int| 0 <= a < order.len() && 0 <= b < order.len() && a != b implies order[a] != order[b] by {
        if a < b {
            assert(prec(input, order[a] as int, order[b] as int));
            lemma_prec_facts(input, order[a] as int, order[b] as int, 0);
        } else {
            assert(prec(input, order[b] as int, order[a] as int));
            lemma_prec_facts(input, order[b] as int, order[a] as int, 0);
        }
    }
    assert(order.no_duplicates());
    // every position occurs
    assert forall|y: usize| (y as int) < n implies order.contains(y) by {
        if !order.contains(y) {
            let all = Set::new(|x: usize| (x as int) < n);
            crate::detect::lemma_usize_range_len(n as int);
            order.unique_seq_to_set();
            assert(order.to_set().subset_of(all.remove(y)));
            vstd::set_lib::lemma_len_subset(order.to_set(), all.remove(y));
        }
    }
    let t = order.take(k);
    assert(t.no_duplicates()) by {
        assert forall|a: int, b: int| 0 <= a < t.len() && 0 <= b < t.len() && a != b implies t[a] != t[b] by {
            assert(t[a] == order[a]);
            assert(t[b] == order[b]);
        }
    }
    assert forall|y: usize| t.to_set().contains(y) <==> ((y as int) < n && prec(input, y as int, order[k] as int)) by {
        if t.to_set().contains(y) {
            let j = choose|j: int| 0 <= j < t.len() && t[j] == y;
            assert(t[j] == order[j]);
            assert(prec(input, order[j] as int, order[k] as int));
        }
        if (y as int) < n && prec(input, y as int, order[k] as int) {
            assert(order.contains(y));
            let j = choose|j: int| 0 <= j < order.len() && order[j] == y;
            if j >= k {
                if j == k {
                    lemma_prec_facts(input, y as int, y as int, 0);
                } else {
                    assert(prec(input, order[k] as int, order[j] as int));
                    lemma_prec_facts(input, order[k] as int, y as int, 0);
                }
            }
            assert(t[j] == y);
        }
    }
}

/// Two stable listings of inputs that agree on time and id are the same.
pub proof fn lemma_stable_listing_unique(input: Seq<EventRecord>, o1: Seq<usize>, o2: Seq<usize>)
    requires
        stable_listing(input, o1),
        stable_listing(input, o2),
        input.len() <= usize::MAX,
    ensures
        o1 == o2,
{
    assert forall|k: int| 0 <= k < o1.len() implies o1[k] == o2[k] by {
        lemma_listing_prefix(input, o1, k);
        lemma_listing_prefix(input, o2, k);
        let x = o1[k];
        let z = o2[k];
        let s1 = o1.take(k).to_set();
        let s2 = o2.take(k).to_set();
        o1.take(k).unique_seq_to_set();
        o2.take(k).unique_seq_to_set();
        vstd::seq_lib::seq_to_set_is_finite(o1.take(k));
        vstd::seq_lib::seq_to_set_is_finite(o2.take(k));
        if x != z {
            lemma_prec_facts(input, x as int, z as int, 0);
            if prec(input, x as int, z as int) {
                assert(s1.insert(x).subset_of(s2)) by {
                    assert forall|y: usize| s1.insert(x).contains(y) implies s2.contains(y) by {
                        if y != x {
                            lemma_prec_facts(input, y as int, x as int, z as int);
                        }
                    }
                }
                lemma_prec_facts(input, x as int, x as int, 0);
                assert(!s1.contains(x));
                vstd::set_lib::lemma_len_subset(s1.insert(x), s2);
            } else {
                assert(s2.insert(z).subset_of(s1)) by {
                    assert forall|y: usize| s2.insert(z).contains(y) implies s1.contains(y) by {
                        if y != z {
                            lemma_prec_facts(input, y as int, z as int, x as int);
                        }
                    }
                }
                lemma_prec_facts(input, z as int, z as int, 0);
                assert(!s2.contains(z));
                vstd::set_lib::lemma_len_subset(s2.insert(z), s1);
            }
        }
    }
    assert(o1 =~= o2);
}

/// Stable sorting by time and id has one outcome: inputs that agree on
/// time and id at every position are rearranged alike.
pub proof fn lemma_stable_sort_unique(in1: Seq<EventRecord>, in2: Seq<EventRecord>, out1: Seq<EventRecord>, out2: Seq<EventRecord>)
    requires
        in1.len() == in2.len(),
        in1.len() <= usize::MAX,
        forall|i: int| 0 <= i < in1.len() ==> same_key(#[trigger] in1[i], in2[i]),
        stably_sorted(in1, out1),
        stably_sorted(in2, out2),
    ensures
        out1.len() == out2.len(),
        exists|order: Seq<usize>|
            #![trigger order.len()]
            order.len() == out1.len() && forall|k: int|
                0 <= k < out1.len() ==> (#[trigger] order[k] as int) < in1.len() && out1[k] == in1[order[k] as int] && out2[k]
                    == in2[order[k] as int],
{
    let o1 = choose|order: Seq<usize>|
        #![trigger order.len()]
        {
            &&& order.len() == in1.len()
            &&& out1.len() == in1.len()
            &&& forall|k: int| 0 <= k < order.len() ==> (#[trigger] order[k] as int) < in1.len()
            &&& forall|a: int, b: int|
                0 <= a < b < order.len() ==> {
                    ||| event_before(in1[#[trigger] order[a] as int], in1[#[trigger] order[b] as int])
                    ||| (!event_before(in1[order[b] as int], in1[order[a] as int]) && order[a] < order[b])
                }
            &&& forall|k: int| 0 <= k < out1.len() ==> #[trigger] out1[k] == in1[order[k] as int]
        };
    let o2 = choose|order: Seq<usize>|
        #![trigger order.len()]
        {
            &&& order.len() == in2.len()
            &&& out2.len() == in2.len()
            &&& forall|k: int| 0 <= k < order.len() ==> (#[trigger] order[k] as int) < in2.len()
            &&& forall|a: int, b: int|
                0 <= a < b < order.len() ==> {
                    ||| event_before(in2[#[trigger] order[a] as int], in2[#[trigger] order[b] as int])
                    ||| (!event_before(in2[order[b] as int], in2[order[a] as int]) && order[a] < order[b])
                }
            &&& forall|k: int| 0 <= k < out2.len() ==> #[trigger] out2[k] == in2[order[k] as int]
        };
    assert(stable_listing(in1, o1)) by {
        assert forall|a: int, b: int| 0 <= a < b < o1.len() implies prec(in1, #[trigger] o1[a] as int, #[trigger] o1[b] as int) by {}
    }
    assert(stable_listing(in1, o2)) by {
        assert forall|a: int, b: int| 0 <= a < b < o2.len() implies prec(in1, #[trigger] o2[a] as int, #[trigger] o2[b] as int) by {
            let x = o2[a] as int;
            let y = o2[b] as int;
            assert(same_key(in1[x], in2[x]));
            assert(same_key(in1[y], in2[y]));
        }
    }
    lemma_stable_listing_unique(in1, o1, o2);
    assert(forall|k: int|
        0 <= k < out1.len() ==> (#[trigger] o1[k] as int) < in1.len() && out1[k] == in1[o1[k] as int] && out2[k] == in2[o1[k] as int]);
}

} // verus!

verus! {

/// One step of an execution plan.
#[derive(Debug, Clone)]
pub struct PlanStep {
    pub operator: String,
    pub detail: String,
    pub input_candidates: usize,
    pub output_candidates: usize,
    pub operations: usize,
    pub complexity: String,
}

/// How a query was evaluated.
#[derive(Debug, Clone)]
pub struct ExecutionPlan {
    pub strategy: String,
    pub total_events: usize,
    pub candidates: usize,
    pub operations: usize,
    pub steps: Vec<PlanStep>,
}

/// Matching events (at most the requested number) and the plan.
#[derive(Debug, Clone)]
pub struct QueryResult {
    pub query: String,
    pub matches: Vec<EventRecord>,
    pub plan: ExecutionPlan,
}

/// Events ordered by time and id, with the trie of their keys and the
/// temporal vector of their millisecond timestamps.
pub struct SearchIndex {
    events: Vec<EventRecord>,
    trie: PrefixTrie,
    temporal: Vec<(i64, usize)>,
}

/// Sort keys of events: time, then id.
pub open spec fn event_sort_key(e: EventRecord) -> (int, int, Seq<char>) {
    (e.timestamp.secs as int, e.timestamp.nanos as int, e.id@)
}

/// Orders events by time and then id, keeping ties in input order.
pub fn sort_events(events: Vec<EventRecord>) -> (r: Vec<EventRecord>)
    ensures
        stably_sorted(events@, r@),
        events_in_order(r@),
        times_wf(events@) ==> times_wf(r@),
{
    let mut keys: Vec<SortKey> = Vec::new();
    let mut i: usize = 0;
    while i < events.len()
        invariant
            i <= events.len(),
            keys.len() == i,
            forall|j: int| 0 <= j < i ==> (#[trigger] keys@[j]).view_key() == event_sort_key(events@[j]),
        decreases events.len() - i,
    {
        let e = &events[i];
        keys.push(SortKey { major: e.timestamp.secs, minor: e.timestamp.nanos, text: chars_of(e.id.as_str()) });
        i += 1;
    }
    let order = stable_order(&keys);
    let ghost kv = key_views(keys@);
    let ghost input = events@;
    proof {
        assert forall|a: int, b: int|
            0 <= a < order.len() && 0 <= b < order.len() && a != b implies #[trigger] order@[a] != #[trigger] order@[b] by {
            crate::sort::lemma_ordered_distinct(kv, order@, a, b);
        }
        assert forall|j: int| 0 <= j < keys.len() implies kv[j] == event_sort_key(#[trigger] input[j]) by {
            assert(kv[j] == keys@[j].view_key());
        }
    }
    let r = permute(events, &order);
    proof {
        assert forall|a: int, b: int|
            0 <= a < b < order.len() implies {
                ||| event_before(input[#[trigger] order@[a] as int], input[#[trigger] order@[b] as int])
                ||| (!event_before(input[order@[b] as int], input[order@[a] as int]) && order@[a] < order@[b])
            } by {
            let ia = order@[a] as int;
            let ib = order@[b] as int;
            assert(crate::sort::pos_lt(kv, ia, ib));
            assert(kv[ia] == event_sort_key(input[ia]));
            assert(kv[ib] == event_sort_key(input[ib]));
            if kv[ia] == kv[ib] {
                crate::sort::lemma_text_lt_irrefl(input[ia].id@);
            }
        }
        assert(stably_sorted(input, r@));
        if times_wf(input) {
            assert forall|i: int| 0 <= i < r@.len() implies (#[trigger] r@[i]).timestamp.wf() by {
                assert(r@[i] == input[order@[i] as int]);
            }
        }
        assert forall|i: int, j: int| 0 <= i < j < r@.len() implies !event_before(#[trigger] r@[j], #[trigger] r@[i]) by {
            let ia = order@[i] as int;
            let ib = order@[j] as int;
            assert(crate::sort::pos_lt(kv, ia, ib));
            crate::sort::lemma_pos_lt_asym(kv, ia, ib);
            assert(kv[ia] == event_sort_key(input[ia]));
            assert(kv[ib] == event_sort_key(input[ib]));
            if kv[ia] == kv[ib] {
                crate::sort::lemma_text_lt_irrefl(input[ia].id@);
            }
        }
    }
    r
}

impl SearchIndex {
    /// The indexed events, in index order.
    pub closed spec fn event_seq(self) -> Seq<EventRecord> {
        self.events@
    }

    /// The temporal vector is in time order (it is unless some event lies
    /// in a leap second).
    pub closed spec fn temporal_sorted(self) -> bool {
        forall|i: int, j: int| 0 <= i < j < self.temporal.len() ==> (#[trigger] self.temporal@[i]).0 <= (#[trigger] self.temporal@[j]).0
    }

    /// The index invariant: the trie files each event under exactly its
    /// keys, and the temporal vector holds each event's milliseconds.
    pub closed spec fn wf(self) -> bool {
        &&& self.trie.wf()
        &&& forall|k: Seq<char>, x: usize|
            #[trigger] self.trie.contents().contains((k, x)) <==> (x < self.events.len() && has_key(
                self.events@[x as int],
                k,
            ))
        &&& self.temporal.len() == self.events.len()
        &&& forall|i: int|
            0 <= i < self.events.len() ==> (#[trigger] self.temporal@[i]).0 as int
                == self.events@[i].timestamp.millis() && self.temporal@[i].1 == i
        &&& times_wf(self.events@)
        &&& events_in_order(self.events@)
    }

    /// Builds the index over the events, ordering them by time and id.
    pub fn build(events: Vec<EventRecord>) -> (r: SearchIndex)
        requires
            times_wf(events@),
        ensures
            r.wf(),
            stably_sorted(events@, r.event_seq()),
    {
        let ghost input = events@;
        let events = sort_events(events);
        let mut trie = PrefixTrie::new();
        let mut temporal: Vec<(i64, usize)> = Vec::new();
        let mut i: usize = 0;
        while i < events.len()
            invariant
                i <= events.len(),
                times_wf(events@),
                trie.wf(),
                forall|k: Seq<char>, x: usize|
                    #[trigger] trie.contents().contains((k, x)) <==> (x < i && has_key(events@[x as int], k)),
                temporal.len() == i,
                forall|j: int|
                    0 <= j < i ==> (#[trigger] temporal@[j]).0 as int == events@[j].timestamp.millis()
                        && temporal@[j].1 == j,
            decreases events.len() - i,
        {
            let e = &events[i];
            temporal.push((e.timestamp.timestamp_millis(), i));
            let keys = event_keys(e);
            let mut m: usize = 0;
            while m < keys.len()
                invariant
                    i < events.len(),
                    m <= keys.len(),
                    trie.wf(),
                    forall|k: Seq<char>, x: usize|
                        #[trigger] trie.contents().contains((k, x)) <==> ((x < i && has_key(events@[x as int], k)) || (
                        x == i && exists|q: int| 0 <= q < m && views(keys@)[q] == k)),
                decreases keys.len() - m,
            {
                proof {
                    assert forall|k: Seq<char>, x: usize| trie.contents().contains((k, x)) implies x <= i by {
                        assert(has_key(events@[x as int], k) || x == i);
                    }
                }
                trie.insert(keys[m].as_slice(), i);
                proof {
                    assert forall|k: Seq<char>, x: usize|
                        #[trigger] trie.contents().contains((k, x)) <==> ((x < i && has_key(events@[x as int], k)) || (
                        x == i && exists|q: int| 0 <= q < m + 1 && views(keys@)[q] == k)) by {
                        if x == i && exists|q: int| 0 <= q < m + 1 && views(keys@)[q] == k {
                            let q = choose|q: int| 0 <= q < m + 1 && views(keys@)[q] == k;
                            if q < m {
                                assert(exists|q2: int| 0 <= q2 < m && views(keys@)[q2] == k);
                            }
                        }
                        if x == i && k == keys@[m as int]@ {
                            assert(views(keys@)[m as int] == k);
                        }
                    }
                }
                m += 1;
            }
            proof {
                assert forall|k: Seq<char>, x: usize|
                    #[trigger] trie.contents().contains((k, x)) <==> (x < i + 1 && has_key(events@[x as int], k)) by {
                    if x == i && has_key(events@[x as int], k) {
                        assert(views(keys@).contains(k));
                        let q = choose|q: int| 0 <= q < views(keys@).len() && views(keys@)[q] == k;
                    }
                    if x == i && (exists|q: int| 0 <= q < keys.len() && views(keys@)[q] == k) {
                        let q = choose|q: int| 0 <= q < keys.len() && views(keys@)[q] == k;
                        assert(views(keys@).contains(k));
                    }
                }
            }
            i += 1;
        }
        SearchIndex { events, trie, temporal }
    }

    /// The indexed events, by time and then id.
    pub fn events(&self) -> (r: &[EventRecord])
        ensures
            r@ == self.event_seq(),
    {
        self.events.as_slice()
    }
}

} // verus!

verus! {

/// The name the index files a field under: `event_type`, `source_ip` and
/// `result` are other names of `type`, `ip` and `outcome`.
pub open spec fn canonical_field(f: Seq<char>) -> Seq<char> {
    if f == "event_type"@ {
        "type"@
    } else if f == "source_ip"@ {
        "ip"@
    } else if f == "result"@ {
        "outcome"@
    } else {
        f
    }
}

/// Field whose keys a term looks up: the given one under its indexed name,
/// else message text.
pub open spec fn key_field(field: Option<Seq<char>>) -> Seq<char> {
    match field {
        Some(f) => canonical_field(f),
        None => "text"@,
    }
}

/// For exact values the `message` field means message text.
pub open spec fn exact_field(field: Option<Seq<char>>) -> Seq<char> {
    if field == Some("message"@) {
        "text"@
    } else {
        key_field(field)
    }
}

/// Milliseconds of an instant, with no bound on its range.
pub open spec fn ms(t: Timestamp) -> int {
    t.secs * 1000 + t.nanos / 1_000_000
}

/// Whether some key of the event starts with `p`.
pub open spec fn has_key_with_prefix(e: EventRecord, p: Seq<char>) -> bool {
    exists|k: Seq<char>| has_key(e, k) && #[trigger] p.is_prefix_of(k)
}

/// Whether the index selects an event for a term.
pub open spec fn index_term(e: EventRecord, field: Option<Seq<char>>, v: ValueSpec) -> bool {
    match v {
        ValueSpec::TimeRange(start, end) => ms(start) <= ms(e.timestamp) <= ms(end),
        ValueSpec::Exact(value) => {
            let f = exact_field(field);
            if f == "text"@ && has_white(value) {
                let terms = tokens(value);
                &&& terms.len() > 0
                &&& forall|i: int| 0 <= i < terms.len() ==> has_key(e, text_key(#[trigger] terms[i]))
                &&& contains_seq(lower(e.message@), lower(value))
            } else {
                has_key(e, field_key(f, value))
            }
        },
        ValueSpec::Prefix(p) => has_key_with_prefix(e, field_key(key_field(field), p)),
    }
}

/// Whether the index selects an event for an expression.
pub open spec fn index_match(e: EventRecord, x: ExprSpec) -> bool
    decreases x,
{
    match x {
        ExprSpec::Term(f, v) => index_term(e, f, v),
        ExprSpec::And(a, b) => index_match(e, *a) && index_match(e, *b),
        ExprSpec::Or(a, b) => index_match(e, *a) || index_match(e, *b),
        ExprSpec::Not(a) => !index_match(e, *a),
    }
}

/// Whether an expression holds a time range.
pub open spec fn has_range(x: ExprSpec) -> bool
    decreases x,
{
    match x {
        ExprSpec::Term(_, v) => v is TimeRange,
        ExprSpec::And(a, b) => has_range(*a) || has_range(*b),
        ExprSpec::Or(a, b) => has_range(*a) || has_range(*b),
        ExprSpec::Not(a) => has_range(*a),
    }
}

/// How a time-range step describes the slice of the temporal vector it
/// took: from `lo` up to, not including, `hi`.
pub open spec fn range_detail(lo: int, hi: int) -> Seq<char> {
    "binary search temporal index ["@ + dec(lo as nat) + ", "@ + dec(hi as nat) + ")"@
}

/// Number of plan steps an evaluation records.
pub open spec fn step_count(x: ExprSpec) -> nat
    decreases x,
{
    match x {
        ExprSpec::Term(_, _) => 1,
        ExprSpec::And(a, b) => step_count(*a) + step_count(*b) + 1,
        ExprSpec::Or(a, b) => step_count(*a) + step_count(*b) + 1,
        ExprSpec::Not(a) => step_count(*a) + 1,
    }
}

/// The value a term compares against directly, when the event has the
/// field (`message` excluded for exact values).
pub open spec fn direct_value(e: EventRecord, field: Option<Seq<char>>, exact: bool) -> Option<Seq<char>> {
    match field {
        Some(f) => if exact && f == "message"@ {
            None
        } else {
            e.field_value(f)
        },
        None => None,
    }
}

/// Whether an event matches a term, read directly off the event.
pub open spec fn scan_term(e: EventRecord, field: Option<Seq<char>>, v: ValueSpec) -> bool {
    match v {
        ValueSpec::TimeRange(start, end) => !e.timestamp.lt(start) && !end.lt(e.timestamp),
        ValueSpec::Exact(value) => match direct_value(e, field, true) {
            Some(c) => lower(c) == lower(value),
            None => if has_white(value) {
                contains_seq(lower(e.message@), value)
            } else {
                tokens(e.message@).contains(value)
            },
        },
        ValueSpec::Prefix(p) => match direct_value(e, field, false) {
            Some(c) => p.is_prefix_of(lower(c)),
            None => exists|i: int|
                0 <= i < tokens(e.message@).len() && p.is_prefix_of(#[trigger] tokens(e.message@)[i]),
        },
    }
}

/// Whether an event matches an expression, read directly off the event.
pub open spec fn scan_match(e: EventRecord, x: ExprSpec) -> bool
    decreases x,
{
    match x {
        ExprSpec::Term(f, v) => scan_term(e, f, v),
        ExprSpec::And(a, b) => scan_match(e, *a) && scan_match(e, *b),
        ExprSpec::Or(a, b) => scan_match(e, *a) || scan_match(e, *b),
        ExprSpec::Not(a) => !scan_match(e, *a),
    }
}

/// Whether a term matches an event, read off the event.
#[verifier::loop_isolation(false)]
fn scan_term_exec(e: &EventRecord, field: &Option<String>, value: &MatchValue) -> (r: bool)
    ensures
        r == scan_term(*e, opt_view(*field), value.model()),
{
    match value {
        MatchValue::TimeRange { start, end } => !e.timestamp.is_before(start) && !end.is_before(&e.timestamp),
        MatchValue::Exact(v) => {
            let vc = chars_of(v.as_str());
            let direct = match field {
                Some(f) => {
                    let fc = chars_of(f.as_str());
                    if is_lit(fc.as_slice(), "message") {
                        None
                    } else {
                        e.field(f.as_str())
                    }
                },
                None => None,
            };
            match direct {
                Some(c) => {
                    let cl = to_lower(chars_of(c.as_str()).as_slice());
                    let vl = to_lower(vc.as_slice());
                    seq_eq(cl.as_slice(), vl.as_slice())
                },
                None => {
                    let msg = chars_of(e.message.as_str());
                    if has_white_exec(vc.as_slice()) {
                        let ml = to_lower(msg.as_slice());
                        contains_exec(ml.as_slice(), vc.as_slice())
                    } else {
                        let toks = tokenize(msg.as_slice());
                        let mut i: usize = 0;
                        while i < toks.len()
                            invariant
                                i <= toks.len(),
                                views(toks@) == tokens(e.message@),
                                forall|j: int| 0 <= j < i ==> views(toks@)[j] != vc@,
                            decreases toks.len() - i,
                        {
                            if seq_eq(toks[i].as_slice(), vc.as_slice()) {
                                assert(tokens(e.message@)[i as int] == vc@);
                                assert(tokens(e.message@).contains(vc@));
                                return true;
                            }
                            i += 1;
                        }
                        false
                    }
                },
            }
        },
        MatchValue::Prefix(p) => {
            let pc = chars_of(p.as_str());
            let direct = match field {
                Some(f) => e.field(f.as_str()),
                None => None,
            };
            match direct {
                Some(c) => {
                    let cl = to_lower(chars_of(c.as_str()).as_slice());
                    starts_with_exec(cl.as_slice(), pc.as_slice())
                },
                None => {
                    let msg = chars_of(e.message.as_str());
                    let toks = tokenize(msg.as_slice());
                    let mut i: usize = 0;
                    while i < toks.len()
                        invariant
                            i <= toks.len(),
                            views(toks@) == tokens(e.message@),
                            forall|j: int| 0 <= j < i ==> !pc@.is_prefix_of(#[trigger] views(toks@)[j]),
                        decreases toks.len() - i,
                    {
                        if starts_with_exec(toks[i].as_slice(), pc.as_slice()) {
                            assert(pc@.is_prefix_of(tokens(e.message@)[i as int]));
                            assert(0 <= i < tokens(e.message@).len());
                            return true;
                        }
                        i += 1;
                    }
                    false
                },
            }
        },
    }
}

/// Whether an expression matches an event, read off the event.
fn matches_expr(e: &EventRecord, x: &Expr) -> (r: bool)
    ensures
        r == scan_match(*e, x.model()),
    decreases x,
{
    match x {
        Expr::And(a, b) => matches_expr(e, a) && matches_expr(e, b),
        Expr::Or(a, b) => matches_expr(e, a) || matches_expr(e, b),
        Expr::Not(a) => !matches_expr(e, a),
        Expr::Term { field, value } => scan_term_exec(e, field, value),
    }
}

impl SearchIndex {
    /// Positions of the events an expression matches, found by reading
    /// every event (the reference for indexed evaluation).
    pub fn linear_scan(&self, expr: &Expr) -> (r: Vec<usize>)
        ensures
            r@ == scanned(self.event_seq(), expr.model()),
            sorted_unique(r@),
            forall|i: usize|
                r@.contains(i) <==> (i < self.event_seq().len() && scan_match(
                    self.event_seq()[i as int],
                    expr.model(),
                )),
    {
        let mut r: Vec<usize> = Vec::new();
        let mut i: usize = 0;
        while i < self.events.len()
            invariant
                i <= self.events.len(),
                sorted_unique(r@),
                forall|k: int| 0 <= k < r.len() ==> (#[trigger] r@[k]) < i,
                forall|j: usize|
                    r@.contains(j) <==> (j < i && scan_match(self.events@[j as int], expr.model())),
            decreases self.events.len() - i,
        {
            let ghost before = r@;
            if matches_expr(&self.events[i], expr) {
                r.push(i);
                proof {
                    assert forall|j: usize|
                        r@.contains(j) <==> (j < i + 1 && scan_match(self.events@[j as int], expr.model())) by {
                        if before.contains(j) {
                            let k = choose|k: int| 0 <= k < before.len() && before[k] == j;
                            assert(r@[k] == j);
                        }
                        if j == i {
                            assert(r@[before.len() as int] == j);
                        }
                        if r@.contains(j) && j != i {
                            let k = choose|k: int| 0 <= k < r.len() && r@[k] == j;
                            assert(before[k] == j);
                        }
                    }
                }
            }
            i += 1;
        }
        proof {
            let ghost x = expr.model();
            lemma_positions_unique(r@, self.events@, |e: EventRecord| scan_match(e, x), self.events@.len() as int);
        }
        r
    }
}

} // verus!

verus! {

/// `floor(log2(n)) + 1` for `n > 1`, else 1: the steps of a binary search.
pub open spec fn log2_steps_spec(n: nat) -> nat
    decreases n,
{
    if n <= 1 {
        1
    } else {
        log2_steps_spec(n / 2) + 1
    }
}

proof fn lemma_log2_steps_bound(n: nat)
    ensures
        log2_steps_spec(n) <= if n >= 1 { n } else { 1 },
        log2_steps_spec(n) >= 1,
    decreases n,
{
    if n > 1 {
        lemma_log2_steps_bound(n / 2);
    }
}

fn log2_steps(value: usize) -> (r: usize)
    ensures
        r == log2_steps_spec(value as nat),
{
    let mut v = value;
    let mut r: usize = 1;
    proof {
        lemma_log2_steps_bound(value as nat);
    }
    while v > 1
        invariant
            1 <= r,
            v <= value,
            r + log2_steps_spec(v as nat) == log2_steps_spec(value as nat) + 1,
            log2_steps_spec(value as nat) <= if value >= 1 { value as nat } else { 1 },
        decreases v,
    {
        proof {
            lemma_log2_steps_bound((v / 2) as nat);
        }
        v = v / 2;
        r = r + 1;
    }
    proof {
        lemma_log2_steps_bound(v as nat);
    }
    r
}

fn plan_step(
    operator: &str,
    detail: String,
    input_candidates: usize,
    output_candidates: usize,
    operations: usize,
    complexity: &str,
) -> (s: PlanStep)
    ensures
        s.operator@ == operator@,
        s.detail == detail,
        s.input_candidates == input_candidates,
        s.output_candidates == output_candidates,
        s.operations == operations,
        s.complexity@ == complexity@,
{
    PlanStep {
        operator: String::from_str(operator),
        detail,
        input_candidates,
        output_candidates,
        operations,
        complexity: String::from_str(complexity),
    }
}

/// First position in `[0, n)` whose time is not below `bound` (`inclusive`:
/// not at or below it), found by binary search.
/// The times of a temporal vector.
pub open spec fn pair_times(t: Seq<(i64, usize)>) -> Seq<int> {
    t.map_values(|p: (i64, usize)| p.0 as int)
}

fn partition_point(temporal: &Vec<(i64, usize)>, bound: i128, inclusive: bool) -> (r: usize)
    ensures
        r == bisect(pair_times(temporal@), bound as int, inclusive, 0, temporal.len() as int),
        r <= temporal.len(),
        (forall|i: int, j: int| 0 <= i < j < temporal.len() ==> (#[trigger] temporal@[i]).0 <= (#[trigger] temporal@[j]).0) ==> {
            &&& forall|i: int| 0 <= i < r ==> (if inclusive { (#[trigger] temporal@[i]).0 <= bound } else { temporal@[i].0 < bound })
            &&& forall|i: int| r <= i < temporal.len() ==> (if inclusive { (#[trigger] temporal@[i]).0 > bound } else { temporal@[i].0 >= bound })
        },
{
    let ghost sorted = forall|i: int, j: int| 0 <= i < j < temporal.len() ==> (#[trigger] temporal@[i]).0 <= (#[trigger] temporal@[j]).0;
    let mut lo: usize = 0;
    let mut hi: usize = temporal.len();
    while lo < hi
        invariant
            lo <= hi <= temporal.len(),
            bisect(pair_times(temporal@), bound as int, inclusive, 0, temporal.len() as int) == bisect(
                pair_times(temporal@),
                bound as int,
                inclusive,
                lo as int,
                hi as int,
            ),
            sorted == (forall|i: int, j: int| 0 <= i < j < temporal.len() ==> (#[trigger] temporal@[i]).0 <= (#[trigger] temporal@[j]).0),
            sorted ==> forall|i: int| 0 <= i < lo ==> (if inclusive { (#[trigger] temporal@[i]).0 <= bound } else { temporal@[i].0 < bound }),
            sorted ==> forall|i: int| hi <= i < temporal.len() ==> (if inclusive { (#[trigger] temporal@[i]).0 > bound } else { temporal@[i].0 >= bound }),
        decreases hi - lo,
    {
        let mid = lo + (hi - lo) / 2;
        assert(pair_times(temporal@)[mid as int] == temporal@[mid as int].0 as int);
        let t = temporal[mid].0 as i128;
        let below = if inclusive { t <= bound } else { t < bound };
        if below {
            proof {
                if sorted {
                    assert forall|i: int| 0 <= i < mid + 1 implies (if inclusive { (#[trigger] temporal@[i]).0 <= bound } else { temporal@[i].0 < bound }) by {
                        if i < mid {
                            assert(temporal@[i].0 <= temporal@[mid as int].0);
                        }
                    }
                }
            }
            lo = mid + 1;
        } else {
            proof {
                if sorted {
                    assert forall|i: int| mid <= i < temporal.len() implies (if inclusive { (#[trigger] temporal@[i]).0 > bound } else { temporal@[i].0 >= bound }) by {
                        if i > mid {
                            assert(temporal@[mid as int].0 <= temporal@[i].0);
                        }
                    }
                }
            }
            hi = mid;
        }
    }
    lo
}

fn millis_wide(t: &Timestamp) -> (r: i128)
    ensures
        r == ms(*t),
{
    t.secs as i128 * 1000 + (t.nanos / 1_000_000) as i128
}

fn literal(s: &str) -> (r: String)
    ensures
        r@ == s@,
{
    String::from_str(s)
}

} // verus!

verus! {

/// `after` is `before` with `k` more steps recorded.
pub open spec fn steps_added(before: ExecutionPlan, after: ExecutionPlan, k: nat) -> bool {
    &&& after.strategy == before.strategy
    &&& after.total_events == before.total_events
    &&& after.candidates == before.candidates
    &&& after.operations == before.operations
    &&& after.steps@.len() == before.steps@.len() + k
    &&& forall|i: int| 0 <= i < before.steps@.len() ==> after.steps@[i] == before.steps@[i]
}

/// A plan step by value: operator, detail, input and output candidates,
/// operations and complexity.
pub open spec fn step_view(s: PlanStep) -> (Seq<char>, Seq<char>, int, int, int, Seq<char>) {
    (s.operator@, s.detail@, s.input_candidates as int, s.output_candidates as int, s.operations as int, s.complexity@)
}

pub open spec fn step_views(steps: Seq<PlanStep>) -> Seq<(Seq<char>, Seq<char>, int, int, int, Seq<char>)> {
    steps.map_values(|s: PlanStep| step_view(s))
}

/// `v`, or `usize::MAX` when it is larger.
pub open spec fn sat(v: int) -> int {
    if v <= usize::MAX {
        v
    } else {
        usize::MAX as int
    }
}

/// Whether an event's message carries every token of `ts`.
pub open spec fn has_tokens(ts: Seq<Seq<char>>) -> spec_fn(EventRecord) -> bool {
    |e: EventRecord| forall|i: int| 0 <= i < ts.len() ==> has_key(e, text_key(#[trigger] ts[i]))
}

/// How many events carry every token of `ts` in their message (none when
/// there are no tokens).
pub open spec fn token_hits(events: Seq<EventRecord>, ts: Seq<Seq<char>>) -> int {
    if ts.len() == 0 {
        0
    } else {
        positions_upto(events, has_tokens(ts), events.len() as int).len() as int
    }
}

impl SearchIndex {
    /// The step a term records.
    pub open spec fn term_step(self, field: Option<Seq<char>>, v: ValueSpec) -> (Seq<char>, Seq<char>, int, int, int, Seq<char>) {
        let events = self.event_seq();
        let n = events.len() as int;
        let hits = evaluated(events, ExprSpec::Term(field, v)).len() as int;
        match v {
            ValueSpec::TimeRange(start, end) => (
                "TIME_RANGE"@,
                range_detail(range_low(events, start), range_high(events, end)),
                n,
                hits,
                sat(sat((2 * log2_steps_spec(n as nat)) as int) + hits),
                "O(log n + k)"@,
            ),
            ValueSpec::Prefix(p) => (
                "TRIE_PREFIX"@,
                field_key(key_field(field), p),
                n,
                hits,
                sat(p.len() + hits),
                "O(p + k)"@,
            ),
            ValueSpec::Exact(value) => if exact_field(field) == "text"@ && has_white(value) {
                let ts = tokens(value);
                let before = token_hits(events, ts);
                (
                    "PHRASE_VERIFY"@,
                    "intersect "@ + dec(ts.len()) + " token lists, then verify phrase"@,
                    before,
                    hits,
                    sat(before + ts.len()),
                    "O(sum postings + candidates)"@,
                )
            } else {
                ("POSTING_LOOKUP"@, field_key(exact_field(field), value), n, hits, 1, "O(1) average + O(k)"@)
            },
        }
    }

    /// The steps evaluating `x` records, operands before their operator.
    pub open spec fn plan_of(self, x: ExprSpec) -> Seq<(Seq<char>, Seq<char>, int, int, int, Seq<char>)>
        decreases x,
    {
        let events = self.event_seq();
        let hits = evaluated(events, x).len() as int;
        match x {
            ExprSpec::Term(f, v) => seq![self.term_step(f, v)],
            ExprSpec::And(a, b) => {
                let total = sat((evaluated(events, *a).len() + evaluated(events, *b).len()) as int);
                self.plan_of(*a) + self.plan_of(*b) + seq![
                    ("INTERSECT"@, "linear merge of two ordered posting lists"@, total, hits, total, "O(n + m)"@),
                ]
            },
            ExprSpec::Or(a, b) => {
                let total = sat((evaluated(events, *a).len() + evaluated(events, *b).len()) as int);
                self.plan_of(*a) + self.plan_of(*b) + seq![
                    ("UNION"@, "deduplicating merge of ordered posting lists"@, total, hits, total, "O(n + m)"@),
                ]
            },
            ExprSpec::Not(a) => {
                let total = sat((events.len() + evaluated(events, *a).len()) as int);
                self.plan_of(*a) + seq![
                    ("DIFFERENCE"@, "subtract posting list from event universe"@, total, hits, total, "O(n + m)"@),
                ]
            },
        }
    }
}

/// Addition that stops at `usize::MAX`.
pub fn sat_add(a: usize, b: usize) -> (r: usize)
    ensures
        r == if a + b <= usize::MAX { a + b } else { usize::MAX as int },
{
    if a > usize::MAX - b {
        usize::MAX
    } else {
        a + b
    }
}

/// The positions `lo..hi`.
fn range_list(lo: usize, hi: usize) -> (r: Vec<usize>)
    ensures
        sorted_unique(r@),
        forall|x: usize| r@.contains(x) <==> lo <= x < hi,
        r.len() == if lo <= hi { hi - lo } else { 0 },
        forall|k: int| 0 <= k < r.len() ==> #[trigger] r@[k] == lo + k,
{
    let mut r: Vec<usize> = Vec::new();
    if hi <= lo {
        return r;
    }
    let mut i = lo;
    while i < hi
        invariant
            lo <= i <= hi,
            r.len() == i - lo,
            sorted_unique(r@),
            forall|k: int| 0 <= k < r.len() ==> #[trigger] r@[k] == lo + k,
        decreases hi - i,
    {
        r.push(i);
        i += 1;
    }
    proof {
        assert forall|x: usize| r@.contains(x) <==> lo <= x < hi by {
            if lo <= x < hi {
                assert(r@[x - lo] == x);
            }
        }
    }
    r
}

impl SearchIndex {
    fn eval_range(&self, start: &Timestamp, end: &Timestamp, plan: &mut ExecutionPlan) -> (r: Vec<usize>)
        requires
            self.wf(),
        ensures
            sorted_unique(r@),
            forall|x: usize|
                r@.contains(x) <==> (x < self.event_seq().len() && range_low(self.event_seq(), *start) <= x < range_high(
                    self.event_seq(),
                    *end,
                )),
            steps_added(*old(plan), *final(plan), 1),
            step_view(final(plan).steps@.last()) == (
                "TIME_RANGE"@,
                range_detail(range_low(self.event_seq(), *start), range_high(self.event_seq(), *end)),
                self.event_seq().len() as int,
                r.len() as int,
                sat(sat((2 * log2_steps_spec(self.event_seq().len())) as int) + r.len()),
                "O(log n + k)"@,
            ),
    {
        proof {
            self.lemma_times_match();
        }
        let low = partition_point(&self.temporal, millis_wide(start), false);
        let high = partition_point(&self.temporal, millis_wide(end), true);
        let result = range_list(low, high);
        let mut detail = literal("binary search temporal index [");
        push_dec(&mut detail, low as u64);
        push_str(&mut detail, ", ");
        push_dec(&mut detail, high as u64);
        push_str(&mut detail, ")");
        assert(detail@ =~= "binary search temporal index ["@ + dec(low as nat) + ", "@ + dec(high as nat) + ")"@);
        let n = self.events.len();
        let operations = sat_add(sat_add(log2_steps(n), log2_steps(n)), result.len());
        plan.steps.push(plan_step("TIME_RANGE", detail, n, result.len(), operations, "O(log n + k)"));
        proof {
            assert(plan.steps@.last().detail@ == range_detail(low as int, high as int));
        }
        result
    }

    /// The temporal vector holds each event's time in milliseconds.
    proof fn lemma_times_match(self)
        requires
            self.wf(),
        ensures
            pair_times(self.temporal@) == event_times(self.events@),
            self.temporal.len() == self.events.len(),
    {
        assert forall|i: int| 0 <= i < self.events.len() implies pair_times(self.temporal@)[i] == #[trigger] event_times(
            self.events@,
        )[i] by {
            assert(self.temporal@[i].0 as int == self.events@[i].timestamp.millis());
        }
        assert(pair_times(self.temporal@) =~= event_times(self.events@));
    }

    /// An ordered list of exactly the positions an evaluation keeps is its
    /// result.
    proof fn lemma_as_evaluated(self, r: Seq<usize>, x: ExprSpec)
        requires
            self.wf(),
            sorted_unique(r),
            forall|i: usize| r.contains(i) <==> ((i as int) < self.event_seq().len() && eval_has(self.event_seq(), x, i as int)),
        ensures
            r == evaluated(self.event_seq(), x),
            r.len() == evaluated(self.event_seq(), x).len(),
    {
        lemma_index_positions_unique(r, |i: int| eval_has(self.events@, x, i), self.events@.len() as int);
    }

    fn eval_prefix(&self, field: &Option<String>, prefix: &String, plan: &mut ExecutionPlan) -> (r: Vec<usize>)
        requires
            self.wf(),
        ensures
            sorted_unique(r@),
            forall|x: usize|
                r@.contains(x) <==> (x < self.event_seq().len() && index_term(
                    self.event_seq()[x as int],
                    opt_view(*field),
                    ValueSpec::Prefix(prefix@),
                )),
            steps_added(*old(plan), *final(plan), 1),
            step_view(final(plan).steps@.last()) == (
                "TRIE_PREFIX"@,
                field_key(key_field(opt_view(*field)), prefix@),
                self.event_seq().len() as int,
                r.len() as int,
                sat(prefix@.len() + r.len()),
                "O(p + k)"@,
            ),
    {
        let f = match field {
            Some(f) => canonical_field_exec(chars_of(f.as_str())),
            None => chars_of("text"),
        };
        let pc = chars_of(prefix.as_str());
        let mut key = copy_chars(f.as_slice());
        extend_chars(&mut key, chars_of("=").as_slice());
        extend_chars(&mut key, to_lower(pc.as_slice()).as_slice());
        assert(key@ == field_key(key_field(opt_view(*field)), prefix@));
        let result = self.trie.find(key.as_slice());
        proof {
            assert forall|x: usize|
                result@.contains(x) <==> (x < self.events@.len() && index_term(
                    self.events@[x as int],
                    opt_view(*field),
                    ValueSpec::Prefix(prefix@),
                )) by {
                if result@.contains(x) {
                    assert(has_prefix_entry(self.trie.contents(), key@, x));
                    let k = choose|k: Seq<char>| self.trie.contents().contains((k, x)) && #[trigger] key@.is_prefix_of(k);
                    assert(self.trie.contents().contains((k, x)));
                    assert(x < self.events@.len());
                    assert(has_key(self.events@[x as int], k));
                    assert(has_key_with_prefix(self.events@[x as int], key@));
                }
                if x < self.events@.len() && index_term(self.events@[x as int], opt_view(*field), ValueSpec::Prefix(prefix@)) {
                    assert(has_key_with_prefix(self.events@[x as int], key@));
                    let k = choose|k: Seq<char>| has_key(self.events@[x as int], k) && #[trigger] key@.is_prefix_of(k);
                    assert(self.trie.contents().contains((k, x)));
                    assert(has_prefix_entry(self.trie.contents(), key@, x));
                }
            }
        }
        let n = self.events.len();
        let operations = sat_add(pc.len(), result.len());
        plan.steps.push(plan_step("TRIE_PREFIX", string_of(key.as_slice()), n, result.len(), operations, "O(p + k)"));
        result
    }

    fn eval_exact(&self, field: &Option<String>, value: &String, plan: &mut ExecutionPlan) -> (r: Vec<usize>)
        requires
            self.wf(),
        ensures
            sorted_unique(r@),
            forall|x: usize|
                r@.contains(x) <==> (x < self.event_seq().len() && index_term(
                    self.event_seq()[x as int],
                    opt_view(*field),
                    ValueSpec::Exact(value@),
                )),
            steps_added(*old(plan), *final(plan), 1),
            exact_field(opt_view(*field)) == "text"@ && has_white(value@) ==> step_view(final(plan).steps@.last()) == (
                "PHRASE_VERIFY"@,
                "intersect "@ + dec(tokens(value@).len()) + " token lists, then verify phrase"@,
                token_hits(self.event_seq(), tokens(value@)),
                r.len() as int,
                sat(token_hits(self.event_seq(), tokens(value@)) + tokens(value@).len()),
                "O(sum postings + candidates)"@,
            ),
            !(exact_field(opt_view(*field)) == "text"@ && has_white(value@)) ==> step_view(final(plan).steps@.last()) == (
                "POSTING_LOOKUP"@,
                field_key(exact_field(opt_view(*field)), value@),
                self.event_seq().len() as int,
                r.len() as int,
                1int,
                "O(1) average + O(k)"@,
            ),
    {
        let n = self.events.len();
        let vc = chars_of(value.as_str());
        let f: Vec<char> = match field {
            Some(f) => {
                let fc = chars_of(f.as_str());
                if is_lit(fc.as_slice(), "message") {
                    chars_of("text")
                } else {
                    canonical_field_exec(fc)
                }
            },
            None => chars_of("text"),
        };
        assert(f@ == exact_field(opt_view(*field)));
        if is_lit(f.as_slice(), "text") && has_white_exec(vc.as_slice()) {
            let terms = tokenize(vc.as_slice());
            let ghost ts = views(terms@);
            let mut candidates: Vec<usize> = if terms.len() > 0 {
                let first = text_key_of(terms[0].as_slice());
                let found = self.trie.find_exact(first.as_slice());
                proof {
                    assert forall|x: usize|
                        found@.contains(x) <==> (x < self.events@.len() && forall|i: int|
                            0 <= i < 1 ==> has_key(self.events@[x as int], text_key(#[trigger] ts[i]))) by {
                        assert(ts[0] == terms@[0]@);
                        if x < self.events@.len() && has_key(self.events@[x as int], text_key(ts[0])) {
                            assert(self.trie.contents().contains((first@, x)));
                        }
                    }
                }
                found
            } else {
                Vec::new()
            };
            let mut t: usize = 1;
            while t < terms.len()
                invariant
                    self.wf(),
                    ts == views(terms@),
                    ts == tokens(vc@),
                    1 <= t,
                    t <= terms.len() || terms.len() == 0,
                    sorted_unique(candidates@),
                    terms.len() == 0 ==> candidates@.len() == 0,
                    forall|x: usize|
                        candidates@.contains(x) <==> (terms.len() > 0 && x < self.events@.len() && forall|i: int|
                            0 <= i < t ==> has_key(self.events@[x as int], text_key(#[trigger] ts[i]))),
                decreases terms.len() - t,
            {
                let more = self.trie.find_exact(text_key_of(terms[t].as_slice()).as_slice());
                let next = intersect(candidates.as_slice(), more.as_slice());
                proof {
                    assert forall|x: usize|
                        next@.contains(x) <==> (terms.len() > 0 && x < self.events@.len() && forall|i: int|
                            0 <= i < t + 1 ==> has_key(self.events@[x as int], text_key(#[trigger] ts[i]))) by {
                        if next@.contains(x) {
                            assert(more@.contains(x));
                            assert(self.trie.contents().contains((text_key(ts[t as int]), x)));
                        }
                        if terms.len() > 0 && x < self.events@.len() && forall|i: int|
                            0 <= i < t + 1 ==> has_key(self.events@[x as int], text_key(#[trigger] ts[i])) {
                            assert(has_key(self.events@[x as int], text_key(ts[t as int])));
                            assert(self.trie.contents().contains((text_key(ts[t as int]), x)));
                            assert(candidates@.contains(x));
                        }
                    }
                }
                candidates = next;
                t += 1;
            }
            proof {
                if terms.len() > 0 {
                    assert forall|x: usize|
                        candidates@.contains(x) <==> (x < self.events@.len() && forall|i: int|
                            0 <= i < ts.len() ==> has_key(self.events@[x as int], text_key(#[trigger] ts[i]))) by {
                        if t == 1 && terms.len() == 1 {
                        }
                    }
                }
            }
            let before = candidates.len();
            let needle = to_lower(vc.as_slice());
            let mut kept: Vec<usize> = Vec::new();
            let mut c: usize = 0;
            while c < candidates.len()
                invariant
                    self.wf(),
                    c <= candidates.len(),
                    sorted_unique(candidates@),
                    needle@ == lower(vc@),
                    sorted_unique(kept@),
                    forall|k: int| 0 <= k < kept.len() ==> exists|m: int| 0 <= m < c && candidates@[m] == #[trigger] kept@[k],
                    forall|x: usize| candidates@.contains(x) ==> x < self.events@.len(),
                    forall|x: usize|
                        kept@.contains(x) <==> (exists|m: int| 0 <= m < c && candidates@[m] == x) && contains_seq(
                            lower(self.events@[x as int].message@),
                            needle@,
                        ),
                decreases candidates.len() - c,
            {
                let id = candidates[c];
                assert(candidates@.contains(id));
                let msg = to_lower(chars_of(self.events[id].message.as_str()).as_slice());
                let ghost before_kept = kept@;
                if contains_exec(msg.as_slice(), needle.as_slice()) {
                    proof {
                        assert forall|k: int| 0 <= k < before_kept.len() implies before_kept[k] < id by {
                            let m = choose|m: int| 0 <= m < c && candidates@[m] == before_kept[k];
                        }
                    }
                    kept.push(id);
                }
                proof {
                    assert forall|x: usize|
                        kept@.contains(x) <==> (exists|m: int| 0 <= m < c + 1 && candidates@[m] == x) && contains_seq(
                            lower(self.events@[x as int].message@),
                            needle@,
                        ) by {
                        if kept@.contains(x) {
                            let k = choose|k: int| 0 <= k < kept.len() && kept@[k] == x;
                            if k < before_kept.len() {
                                assert(before_kept[k] == x);
                                assert(before_kept.contains(x));
                            }
                        }
                        if (exists|m: int| 0 <= m < c + 1 && candidates@[m] == x) && contains_seq(lower(self.events@[x as int].message@), needle@) {
                            let m = choose|m: int| 0 <= m < c + 1 && candidates@[m] == x;
                            if m < c {
                                assert(before_kept.contains(x));
                                let k = choose|k: int| 0 <= k < before_kept.len() && before_kept[k] == x;
                                assert(kept@[k] == x);
                            } else {
                                assert(kept@[kept.len() - 1] == x);
                            }
                        }
                    }
                    assert forall|k: int| 0 <= k < kept.len() implies exists|m: int| 0 <= m < c + 1 && candidates@[m] == #[trigger] kept@[k] by {
                        if k < before_kept.len() {
                            assert(before_kept[k] == kept@[k]);
                            let m = choose|m: int| 0 <= m < c && candidates@[m] == before_kept[k];
                        } else {
                            assert(candidates@[c as int] == kept@[k]);
                        }
                    }
                }
                c += 1;
            }
            proof {
                assert forall|x: usize|
                    kept@.contains(x) <==> (x < self.events@.len() && index_term(
                        self.events@[x as int],
                        opt_view(*field),
                        ValueSpec::Exact(value@),
                    )) by {
                    if kept@.contains(x) {
                        let m = choose|m: int| 0 <= m < c && candidates@[m] == x;
                        assert(candidates@.contains(x));
                    }
                    if x < self.events@.len() && index_term(self.events@[x as int], opt_view(*field), ValueSpec::Exact(value@)) {
                        assert(candidates@.contains(x));
                        let m = choose|m: int| 0 <= m < candidates.len() && candidates@[m] == x;
                        assert(exists|m: int| 0 <= m < c && candidates@[m] == x);
                    }
                }
            }
            let mut detail = literal("intersect ");
            push_dec(&mut detail, terms.len() as u64);
            push_str(&mut detail, " token lists, then verify phrase");
            assert(detail@ =~= "intersect "@ + dec(tokens(vc@).len()) + " token lists, then verify phrase"@);
            proof {
                if terms.len() > 0 {
                    assert forall|x: usize|
                        candidates@.contains(x) <==> ((x as int) < self.events@.len() && has_tokens(ts)(self.events@[x as int])) by {}
                    lemma_positions_unique(candidates@, self.events@, has_tokens(ts), self.events@.len() as int);
                }
                assert(before == token_hits(self.events@, tokens(vc@)));
            }
            let operations = sat_add(before, terms.len());
            plan.steps.push(plan_step("PHRASE_VERIFY", detail, before, kept.len(), operations, "O(sum postings + candidates)"));
            return kept;
        }
        let mut key = copy_chars(f.as_slice());
        extend_chars(&mut key, chars_of("=").as_slice());
        extend_chars(&mut key, to_lower(vc.as_slice()).as_slice());
        assert(key@ == field_key(exact_field(opt_view(*field)), value@));
        let result = self.trie.find_exact(key.as_slice());
        proof {
            assert forall|x: usize|
                result@.contains(x) <==> (x < self.events@.len() && index_term(
                    self.events@[x as int],
                    opt_view(*field),
                    ValueSpec::Exact(value@),
                )) by {
                if x < self.events@.len() && has_key(self.events@[x as int], key@) {
                    assert(self.trie.contents().contains((key@, x)));
                }
            }
        }
        plan.steps.push(plan_step("POSTING_LOOKUP", string_of(key.as_slice()), n, result.len(), 1, "O(1) average + O(k)"));
        result
    }
}

} // verus!

verus! {

/// Positions below `k`, in order, of the events that satisfy `pred`.
pub open spec fn positions_upto(events: Seq<EventRecord>, pred: spec_fn(EventRecord) -> bool, k: int) -> Seq<usize>
    decreases k,
{
    if k <= 0 {
        Seq::empty()
    } else {
        let prev = positions_upto(events, pred, k - 1);
        if pred(events[k - 1]) {
            prev.push((k - 1) as usize)
        } else {
            prev
        }
    }
}

/// Positions, in order, of the events the index selects for `x`.
pub open spec fn selected(events: Seq<EventRecord>, x: ExprSpec) -> Seq<usize> {
    positions_upto(events, |e: EventRecord| index_match(e, x), events.len() as int)
}

/// Positions, in order, of the events that match `x` when read directly.
pub open spec fn scanned(events: Seq<EventRecord>, x: ExprSpec) -> Seq<usize> {
    positions_upto(events, |e: EventRecord| scan_match(e, x), events.len() as int)
}

/// The events' times in milliseconds, in index order.
pub open spec fn event_times(events: Seq<EventRecord>) -> Seq<int> {
    events.map_values(|e: EventRecord| ms(e.timestamp))
}

/// Where a binary search for `bound` over `times[lo..hi]` stops: it looks
/// at the middle time, and goes right when that time is below `bound`
/// (at most `bound`, when `inclusive`) and left otherwise. Over times in
/// order this is the number of times below the bound.
pub open spec fn bisect(times: Seq<int>, bound: int, inclusive: bool, lo: int, hi: int) -> int
    decreases hi - lo,
{
    if lo < hi {
        let mid = lo + (hi - lo) / 2;
        if (if inclusive { times[mid] <= bound } else { times[mid] < bound }) {
            bisect(times, bound, inclusive, mid + 1, hi)
        } else {
            bisect(times, bound, inclusive, lo, mid)
        }
    } else {
        lo
    }
}

/// Over times in order, a binary search stops at the first time that is
/// not below the bound: every earlier time is below it, no later one is.
pub proof fn lemma_bisect_sorted(times: Seq<int>, bound: int, inclusive: bool, lo: int, hi: int)
    requires
        0 <= lo <= hi <= times.len(),
        forall|p: int, q: int| 0 <= p <= q < times.len() ==> times[p] <= times[q],
        forall|p: int| 0 <= p < lo ==> (if inclusive { times[p] <= bound } else { times[p] < bound }),
        forall|p: int| hi <= p < times.len() ==> !(if inclusive { times[p] <= bound } else { times[p] < bound }),
    ensures
        lo <= bisect(times, bound, inclusive, lo, hi) <= hi,
        forall|p: int|
            0 <= p < times.len() ==> (p < bisect(times, bound, inclusive, lo, hi) <==> (if inclusive {
                times[p] <= bound
            } else {
                times[p] < bound
            })),
    decreases hi - lo,
{
    if lo < hi {
        let mid = lo + (hi - lo) / 2;
        if (if inclusive { times[mid] <= bound } else { times[mid] < bound }) {
            assert forall|p: int| 0 <= p < mid + 1 implies (if inclusive { times[p] <= bound } else { times[p] < bound }) by {
                assert(times[p] <= times[mid]);
            }
            lemma_bisect_sorted(times, bound, inclusive, mid + 1, hi);
        } else {
            assert forall|p: int| mid <= p < times.len() implies !(if inclusive { times[p] <= bound } else { times[p] < bound }) by {
                assert(times[mid] <= times[p]);
            }
            lemma_bisect_sorted(times, bound, inclusive, lo, mid);
        }
    }
}

/// First position a time range takes from the temporal vector.
pub open spec fn range_low(events: Seq<EventRecord>, start: Timestamp) -> int {
    bisect(event_times(events), ms(start), false, 0, events.len() as int)
}

/// Position just past the last one a time range takes.
pub open spec fn range_high(events: Seq<EventRecord>, end: Timestamp) -> int {
    bisect(event_times(events), ms(end), true, 0, events.len() as int)
}

/// Whether evaluating `x` over the index keeps position `i`: a time range
/// keeps the positions between its two binary searches, other terms the
/// events the index files under them, and the operators combine.
pub open spec fn eval_has(events: Seq<EventRecord>, x: ExprSpec, i: int) -> bool
    decreases x,
{
    match x {
        ExprSpec::Term(f, v) => match v {
            ValueSpec::TimeRange(start, end) => range_low(events, start) <= i < range_high(events, end),
            _ => index_term(events[i], f, v),
        },
        ExprSpec::And(a, b) => eval_has(events, *a, i) && eval_has(events, *b, i),
        ExprSpec::Or(a, b) => eval_has(events, *a, i) || eval_has(events, *b, i),
        ExprSpec::Not(a) => !eval_has(events, *a, i),
    }
}

/// The positions evaluating `x` gives, in order.
pub open spec fn evaluated(events: Seq<EventRecord>, x: ExprSpec) -> Seq<usize> {
    index_positions(|i: int| eval_has(events, x, i), events.len() as int)
}

/// `event_type`, `source_ip` and `result` name the same fields as
/// `type`, `ip` and `outcome`: a term under either name keeps the same
/// positions.
pub proof fn lemma_alias_terms(events: Seq<EventRecord>, v: ValueSpec)
    ensures
        evaluated(events, ExprSpec::Term(Some("event_type"@), v)) == evaluated(events, ExprSpec::Term(Some("type"@), v)),
        evaluated(events, ExprSpec::Term(Some("source_ip"@), v)) == evaluated(events, ExprSpec::Term(Some("ip"@), v)),
        evaluated(events, ExprSpec::Term(Some("result"@), v)) == evaluated(events, ExprSpec::Term(Some("outcome"@), v)),
{
    reveal_strlit("event_type");
    reveal_strlit("source_ip");
    reveal_strlit("result");
    reveal_strlit("type");
    reveal_strlit("ip");
    reveal_strlit("outcome");
    reveal_strlit("message");
    assert("event_type"@.len() == 10 && "source_ip"@.len() == 9 && "result"@.len() == 6 && "message"@.len() == 7);
    assert("type"@.len() == 4 && "ip"@.len() == 2 && "outcome"@.len() == 7);
    assert("outcome"@[0] != "message"@[0]);
    assert(canonical_field("type"@) == "type"@);
    assert(canonical_field("ip"@) == "ip"@);
    assert(canonical_field("outcome"@) == "outcome"@);
    assert((|i: int| eval_has(events, ExprSpec::Term(Some("event_type"@), v), i))
        =~= (|i: int| eval_has(events, ExprSpec::Term(Some("type"@), v), i)));
    assert((|i: int| eval_has(events, ExprSpec::Term(Some("source_ip"@), v), i))
        =~= (|i: int| eval_has(events, ExprSpec::Term(Some("ip"@), v), i)));
    assert((|i: int| eval_has(events, ExprSpec::Term(Some("result"@), v), i))
        =~= (|i: int| eval_has(events, ExprSpec::Term(Some("outcome"@), v), i)));
}

/// An evaluation's positions form a posting list: in increasing order and
/// each below the number of events.
pub proof fn lemma_evaluated_valid(events: Seq<EventRecord>, x: ExprSpec)
    requires
        events.len() <= usize::MAX,
    ensures
        sorted_unique(evaluated(events, x)),
        forall|i: usize| #[trigger] evaluated(events, x).contains(i) <==> (i < events.len() && eval_has(events, x, i as int)),
{
    lemma_index_positions_facts(|i: int| eval_has(events, x, i), events.len() as int);
}

/// Complement, double negation and De Morgan's laws hold of evaluation:
/// `NOT` keeps exactly the positions its operand drops, and each pair of
/// expressions below gives the same positions.
pub proof fn lemma_evaluation_laws(events: Seq<EventRecord>, a: ExprSpec, b: ExprSpec)
    requires
        events.len() <= usize::MAX,
    ensures
        forall|i: usize| #[trigger] evaluated(events, ExprSpec::Not(Box::new(a))).contains(i)
            <==> (i < events.len() && !evaluated(events, a).contains(i)),
        evaluated(events, ExprSpec::Not(Box::new(ExprSpec::Not(Box::new(a))))) == evaluated(events, a),
        evaluated(events, ExprSpec::Not(Box::new(ExprSpec::And(Box::new(a), Box::new(b))))) == evaluated(
            events,
            ExprSpec::Or(Box::new(ExprSpec::Not(Box::new(a))), Box::new(ExprSpec::Not(Box::new(b)))),
        ),
        evaluated(events, ExprSpec::Not(Box::new(ExprSpec::Or(Box::new(a), Box::new(b))))) == evaluated(
            events,
            ExprSpec::And(Box::new(ExprSpec::Not(Box::new(a))), Box::new(ExprSpec::Not(Box::new(b)))),
        ),
{
    let na = ExprSpec::Not(Box::new(a));
    let nb = ExprSpec::Not(Box::new(b));
    lemma_evaluated_valid(events, a);
    lemma_evaluated_valid(events, na);
    reveal_with_fuel(eval_has, 3);
    assert forall|i: usize| #[trigger] evaluated(events, na).contains(i)
        <==> (i < events.len() && !evaluated(events, a).contains(i)) by {
        if i < events.len() {
            assert(eval_has(events, na, i as int) == !eval_has(events, a, i as int));
        }
    }
    assert((|i: int| eval_has(events, ExprSpec::Not(Box::new(na)), i)) =~= (|i: int| eval_has(events, a, i)));
    assert((|i: int| eval_has(events, ExprSpec::Not(Box::new(ExprSpec::And(Box::new(a), Box::new(b)))), i))
        =~= (|i: int| eval_has(events, ExprSpec::Or(Box::new(na), Box::new(nb)), i)));
    assert((|i: int| eval_has(events, ExprSpec::Not(Box::new(ExprSpec::Or(Box::new(a), Box::new(b)))), i))
        =~= (|i: int| eval_has(events, ExprSpec::And(Box::new(na), Box::new(nb)), i)));
}

/// Double negation and De Morgan's laws hold of what the index selects:
/// each pair of expressions selects the same positions.
pub proof fn lemma_selection_laws(events: Seq<EventRecord>, a: ExprSpec, b: ExprSpec)
    ensures
        selected(events, ExprSpec::Not(Box::new(ExprSpec::Not(Box::new(a))))) == selected(events, a),
        selected(events, ExprSpec::Not(Box::new(ExprSpec::And(Box::new(a), Box::new(b))))) == selected(
            events,
            ExprSpec::Or(Box::new(ExprSpec::Not(Box::new(a))), Box::new(ExprSpec::Not(Box::new(b)))),
        ),
        selected(events, ExprSpec::Not(Box::new(ExprSpec::Or(Box::new(a), Box::new(b))))) == selected(
            events,
            ExprSpec::And(Box::new(ExprSpec::Not(Box::new(a))), Box::new(ExprSpec::Not(Box::new(b)))),
        ),
{
    let na = ExprSpec::Not(Box::new(a));
    let nb = ExprSpec::Not(Box::new(b));
    reveal_with_fuel(index_match, 3);
    assert((|e: EventRecord| index_match(e, ExprSpec::Not(Box::new(na)))) =~= (|e: EventRecord| index_match(e, a)));
    assert((|e: EventRecord| index_match(e, ExprSpec::Not(Box::new(ExprSpec::And(Box::new(a), Box::new(b))))))
        =~= (|e: EventRecord| index_match(e, ExprSpec::Or(Box::new(na), Box::new(nb)))));
    assert((|e: EventRecord| index_match(e, ExprSpec::Not(Box::new(ExprSpec::Or(Box::new(a), Box::new(b))))))
        =~= (|e: EventRecord| index_match(e, ExprSpec::And(Box::new(na), Box::new(nb)))));
}

/// An ordered list without repeats is determined by what it contains.
pub proof fn lemma_positions_unique(s: Seq<usize>, events: Seq<EventRecord>, pred: spec_fn(EventRecord) -> bool, k: int)
    requires
        0 <= k <= events.len(),
        k <= usize::MAX,
        sorted_unique(s),
        forall|i: usize| s.contains(i) <==> (i < k && pred(events[i as int])),
    ensures
        s == positions_upto(events, pred, k),
    decreases k,
{
    if k == 0 {
        if s.len() > 0 {
            assert(s.contains(s[0]));
        }
        assert(s =~= Seq::<usize>::empty());
    } else {
        let m = (k - 1) as usize;
        if pred(events[m as int]) {
            assert(s.contains(m));
            let j = choose|j: int| 0 <= j < s.len() && s[j] == m;
            let last = s.len() - 1;
            assert(s.contains(s[last]));
            if j < last {
                assert(s[j] < s[last]);
            }
            assert(s[last] == m);
            let t = s.drop_last();
            assert forall|i: usize| t.contains(i) <==> (i < k - 1 && pred(events[i as int])) by {
                if t.contains(i) {
                    let q = choose|q: int| 0 <= q < t.len() && t[q] == i;
                    assert(s[q] == i);
                    assert(s[q] < s[last]);
                    assert(s.contains(i));
                }
                if i < k - 1 && pred(events[i as int]) {
                    assert(s.contains(i));
                    let q = choose|q: int| 0 <= q < s.len() && s[q] == i;
                    assert(q != last);
                    assert(t[q] == i);
                }
            }
            lemma_positions_unique(t, events, pred, k - 1);
            assert(s =~= t.push(m));
        } else {
            assert forall|i: usize| s.contains(i) <==> (i < k - 1 && pred(events[i as int])) by {}
            lemma_positions_unique(s, events, pred, k - 1);
        }
    }
}

/// Sum of the operation counts of plan steps.
pub open spec fn ops_sum(steps: Seq<PlanStep>) -> int
    decreases steps.len(),
{
    if steps.len() == 0 {
        0
    } else {
        ops_sum(steps.drop_last()) + steps.last().operations
    }
}

proof fn lemma_steps_added_trans(a: ExecutionPlan, b: ExecutionPlan, c: ExecutionPlan, m: nat, n: nat)
    requires
        steps_added(a, b, m),
        steps_added(b, c, n),
    ensures
        steps_added(a, c, m + n),
{
}

/// The views of the steps recorded after `s0`, split at `s1` and `s2`.
proof fn lemma_views_split3(s0: Seq<PlanStep>, s1: Seq<PlanStep>, s2: Seq<PlanStep>, s3: Seq<PlanStep>)
    requires
        s0.len() <= s1.len() <= s2.len(),
        s3.len() == s2.len() + 1,
        forall|i: int| 0 <= i < s1.len() ==> s2[i] == s1[i],
        forall|i: int| 0 <= i < s2.len() ==> s3[i] == s2[i],
    ensures
        step_views(s3).subrange(s0.len() as int, s3.len() as int) == step_views(s1).subrange(s0.len() as int, s1.len() as int)
            + step_views(s2).subrange(s1.len() as int, s2.len() as int) + seq![step_view(s3.last())],
{
    assert(step_views(s3).subrange(s0.len() as int, s3.len() as int) =~= step_views(s1).subrange(s0.len() as int, s1.len() as int)
        + step_views(s2).subrange(s1.len() as int, s2.len() as int) + seq![step_view(s3.last())]);
}

impl SearchIndex {
    /// Positions of the events an expression selects, combining ordered
    /// posting lists; each operator records a step in the plan.
    fn evaluate(&self, expr: &Expr, plan: &mut ExecutionPlan) -> (r: Vec<usize>)
        requires
            self.wf(),
        ensures
            r@ == evaluated(self.event_seq(), expr.model()),
            sorted_unique(r@),
            forall|x: usize| r@.contains(x) <==> (x < self.event_seq().len() && eval_has(self.event_seq(), expr.model(), x as int)),
            steps_added(*old(plan), *final(plan), step_count(expr.model())),
            final(plan).steps@.len() > 0,
            final(plan).steps@.last().output_candidates == r.len(),
            step_views(final(plan).steps@).subrange(old(plan).steps@.len() as int, final(plan).steps@.len() as int)
                == self.plan_of(expr.model()),
        decreases expr,
    {
        let ghost p0 = *plan;
        let ghost x = expr.model();
        let ghost events = self.events@;
        let ghost n = self.events@.len();
        match expr {
            Expr::Term { field, value } => {
                let r = match value {
                    MatchValue::TimeRange { start, end } => self.eval_range(start, end, plan),
                    MatchValue::Exact(v) => self.eval_exact(field, v, plan),
                    MatchValue::Prefix(p) => self.eval_prefix(field, p, plan),
                };
                proof {
                    self.lemma_as_evaluated(r@, x);
                    assert(step_views(plan.steps@).subrange(p0.steps@.len() as int, plan.steps@.len() as int) =~= seq![
                        step_view(plan.steps@.last()),
                    ]);
                }
                r
            },
            Expr::And(a, b) => {
                let left = self.evaluate(a, plan);
                let ghost p1 = *plan;
                let right = self.evaluate(b, plan);
                let ghost p2 = *plan;
                let output = intersect(left.as_slice(), right.as_slice());
                let total = sat_add(left.len(), right.len());
                plan.steps.push(
                    plan_step(
                        "INTERSECT",
                        literal("linear merge of two ordered posting lists"),
                        total,
                        output.len(),
                        total,
                        "O(n + m)",
                    ),
                );
                proof {
                    lemma_steps_added_trans(p0, p1, p2, step_count(a.model()), step_count(b.model()));
                    lemma_steps_added_trans(p0, p2, *plan, step_count(a.model()) + step_count(b.model()), 1);
                    self.lemma_as_evaluated(output@, x);
                    lemma_views_split3(p0.steps@, p1.steps@, p2.steps@, plan.steps@);
                }
                output
            },
            Expr::Or(a, b) => {
                let left = self.evaluate(a, plan);
                let ghost p1 = *plan;
                let right = self.evaluate(b, plan);
                let ghost p2 = *plan;
                let output = union(left.as_slice(), right.as_slice());
                let total = sat_add(left.len(), right.len());
                plan.steps.push(
                    plan_step(
                        "UNION",
                        literal("deduplicating merge of ordered posting lists"),
                        total,
                        output.len(),
                        total,
                        "O(n + m)",
                    ),
                );
                proof {
                    lemma_steps_added_trans(p0, p1, p2, step_count(a.model()), step_count(b.model()));
                    lemma_steps_added_trans(p0, p2, *plan, step_count(a.model()) + step_count(b.model()), 1);
                    self.lemma_as_evaluated(output@, x);
                    lemma_views_split3(p0.steps@, p1.steps@, p2.steps@, plan.steps@);
                }
                output
            },
            Expr::Not(a) => {
                let inner = self.evaluate(a, plan);
                let ghost p1 = *plan;
                let universe = range_list(0, self.events.len());
                let output = difference(universe.as_slice(), inner.as_slice());
                let total = sat_add(universe.len(), inner.len());
                plan.steps.push(
                    plan_step(
                        "DIFFERENCE",
                        literal("subtract posting list from event universe"),
                        total,
                        output.len(),
                        total,
                        "O(n + m)",
                    ),
                );
                proof {
                    lemma_steps_added_trans(p0, p1, *plan, step_count(a.model()), 1);
                    self.lemma_as_evaluated(output@, x);
                    lemma_views_split3(p0.steps@, p1.steps@, p1.steps@, plan.steps@);
                }
                output
            },
        }
    }
}

impl SearchIndex {
    /// What a query answers for the parsed expression `x`: the plan's
    /// totals, and the selected events in index order, at most `limit`.
    pub open spec fn answers(self, x: ExprSpec, text: Seq<char>, limit: usize, res: QueryResult) -> bool {
        let events = self.event_seq();
        let hits = evaluated(events, x);
        &&& res.query@ == text
        &&& res.plan.strategy@ == "indexed-posting-lists"@
        &&& res.plan.total_events == events.len()
        &&& step_views(res.plan.steps@) == self.plan_of(x)
        &&& res.plan.operations == if ops_sum(res.plan.steps@) <= usize::MAX {
            ops_sum(res.plan.steps@)
        } else {
            usize::MAX as int
        }
        &&& res.plan.candidates == hits.len()
        &&& res.matches@.len() == if limit < hits.len() { limit as int } else { hits.len() as int }
        &&& forall|j: int| 0 <= j < res.matches@.len() ==> (#[trigger] res.matches@[j]).same_as(events[hits[j] as int])
    }

    /// Raising the limit only lengthens the list of matches: two answers to
    /// one query agree on the plan and the candidate count, and the
    /// matches under the smaller limit are the first matches under the
    /// larger one.
    pub proof fn lemma_limit_prefix(
        self,
        x: ExprSpec,
        text: Seq<char>,
        l1: usize,
        l2: usize,
        r1: QueryResult,
        r2: QueryResult,
    )
        requires
            self.answers(x, text, l1, r1),
            self.answers(x, text, l2, r2),
            l1 <= l2,
        ensures
            r1.plan.candidates == r2.plan.candidates,
            step_views(r1.plan.steps@) == step_views(r2.plan.steps@),
            r1.matches@.len() <= r2.matches@.len(),
            forall|j: int| 0 <= j < r1.matches@.len() ==> (#[trigger] r1.matches@[j]).same_as(r2.matches@[j]),
    {
        let events = self.event_seq();
        let hits = evaluated(events, x);
        assert forall|j: int| 0 <= j < r1.matches@.len() implies (#[trigger] r1.matches@[j]).same_as(r2.matches@[j]) by {
            assert(r1.matches@[j].same_as(events[hits[j] as int]));
            assert(r2.matches@[j].same_as(events[hits[j] as int]));
        }
    }

    /// Where the expression has no time range, or the temporal vector is
    /// in time order, evaluation gives exactly the index's selection.
    pub proof fn lemma_evaluated_selected(self, x: ExprSpec)
        requires
            self.wf(),
            !has_range(x) || self.temporal_sorted(),
        ensures
            evaluated(self.event_seq(), x) == selected(self.event_seq(), x),
    {
        let events = self.events@;
        lemma_evaluated_valid(events, x);
        assert forall|i: usize| evaluated(events, x).contains(i) <==> (i < events.len() && index_match(events[i as int], x)) by {
            if i < events.len() {
                self.lemma_eval_matches(x, i as int);
                assert(eval_has(events, x, i as int) == index_match(events[i as int], x));
            }
            assert(evaluated(events, x).contains(i) <==> (i < events.len() && eval_has(events, x, i as int)));
        }
        lemma_positions_unique(evaluated(events, x), events, |e: EventRecord| index_match(e, x), events.len() as int);
    }

    proof fn lemma_eval_matches(self, x: ExprSpec, i: int)
        requires
            self.wf(),
            !has_range(x) || self.temporal_sorted(),
            0 <= i < self.events.len(),
        ensures
            eval_has(self.events@, x, i) == index_match(self.events@[i], x),
        decreases x,
    {
        match x {
            ExprSpec::Term(f, v) => match v {
                ValueSpec::TimeRange(start, end) => {
                    self.lemma_times_match();
                    let times = event_times(self.events@);
                    let n = self.events.len() as int;
                    assert forall|p: int, q: int| 0 <= p <= q < n implies times[p] <= times[q] by {
                        if p < q {
                            assert(self.temporal@[p].0 <= self.temporal@[q].0);
                            assert(pair_times(self.temporal@)[p] == times[p]);
                            assert(pair_times(self.temporal@)[q] == times[q]);
                        }
                    }
                    lemma_bisect_sorted(times, ms(start), false, 0, n);
                    lemma_bisect_sorted(times, ms(end), true, 0, n);
                    assert(times[i] == ms(self.events@[i].timestamp));
                },
                _ => {},
            },
            ExprSpec::And(a, b) => {
                self.lemma_eval_matches(*a, i);
                self.lemma_eval_matches(*b, i);
            },
            ExprSpec::Or(a, b) => {
                self.lemma_eval_matches(*a, i);
                self.lemma_eval_matches(*b, i);
            },
            ExprSpec::Not(a) => self.lemma_eval_matches(*a, i),
        }
    }

    /// Parses and evaluates a query, returning at most `limit` matching
    /// events in index order together with the execution plan.
    pub fn query(&self, query: &str, limit: usize) -> (r: Result<QueryResult, ParseError>)
        requires
            self.wf(),
        ensures
            match r {
                Err(e) => query_spec(query@) == Err::<ExprSpec, (int, Seq<char>)>(err_view(e)),
                Ok(res) => match query_spec(query@) {
                    Ok(x) => self.answers(x, query@, limit, res),
                    Err(_) => false,
                },
            },
    {
        let expr = match parse_query(query) {
            Err(e) => return Err(e),
            Ok(e) => e,
        };
        let ghost x = expr.model();
        let mut plan = ExecutionPlan {
            strategy: literal("indexed-posting-lists"),
            total_events: self.events.len(),
            candidates: 0,
            operations: 0,
            steps: Vec::new(),
        };
        let postings = self.evaluate(&expr, &mut plan);
        plan.candidates = postings.len();
        let mut total: usize = 0;
        let mut i: usize = 0;
        while i < plan.steps.len()
            invariant
                i <= plan.steps.len(),
                total == if ops_sum(plan.steps@.take(i as int)) <= usize::MAX {
                    ops_sum(plan.steps@.take(i as int))
                } else {
                    usize::MAX as int
                },
            decreases plan.steps.len() - i,
        {
            assert(plan.steps@.take(i + 1).drop_last() =~= plan.steps@.take(i as int));
            total = sat_add(total, plan.steps[i].operations);
            i += 1;
        }
        assert(plan.steps@.take(plan.steps.len() as int) =~= plan.steps@);
        plan.operations = total;
        let mut matches: Vec<EventRecord> = Vec::new();
        let mut j: usize = 0;
        while j < postings.len() && j < limit
            invariant
                j <= postings.len(),
                j <= limit,
                matches.len() == j,
                forall|x: usize| postings@.contains(x) ==> x < self.events@.len(),
                forall|k: int| 0 <= k < j ==> (#[trigger] matches@[k]).same_as(self.events@[postings@[k] as int]),
            decreases postings.len() - j,
        {
            assert(postings@.contains(postings@[j as int]));
            matches.push(copy_event(&self.events[postings[j]]));
            j += 1;
        }
        proof {
            assert(step_views(plan.steps@).subrange(0, plan.steps@.len() as int) =~= step_views(plan.steps@));
        }
        Ok(QueryResult { query: String::from_str(query), matches, plan })
    }
}

impl SearchIndex {
    /// When no event lies in a leap second, the temporal vector is in time order.
    pub proof fn lemma_temporal_sorted(self)
        requires
            self.wf(),
            forall|i: int| 0 <= i < self.event_seq().len() ==> (#[trigger] self.event_seq()[i]).timestamp.nanos < 1_000_000_000,
        ensures
            self.temporal_sorted(),
    {
        assert forall|i: int, j: int| 0 <= i < j < self.temporal.len() implies (#[trigger] self.temporal@[i]).0 <= (#[trigger] self.temporal@[j]).0 by {
            let a = self.event_seq()[i].timestamp;
            let b = self.event_seq()[j].timestamp;
            assert(!event_before(self.events@[j], self.events@[i]));
            assert(!b.lt(a));
            assert(a.millis() <= b.millis()) by {
                if a.secs < b.secs {
                    assert(a.nanos / 1_000_000 < 1000);
                    assert(b.nanos / 1_000_000 >= 0);
                }
            }
        }
    }
}

} // verus!
