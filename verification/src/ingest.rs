//! Turning rows of JSON Lines or CSV input into normalized events: blank
//! ids get a fingerprint, rejected rows are reported with their row
//! number, events are ordered by time and then id, and ids that occur more
//! than once are listed.

use crate::detect::strings;
use crate::event::{attrs_sorted, EventRecord, Outcome, Severity};
use crate::index::{sort_events, stably_sorted};
use crate::sort::text_lt;
use crate::text::{all_white, all_white_exec, chars_of, string_of, utf8};
use crate::time::Timestamp;
use crate::trie::PrefixTrie;
use vstd::prelude::*;

verus! {

/// The two accepted input encodings.
#[derive(Debug, Clone, Copy, PartialEq, Eq, Structural)]
pub enum InputFormat {
    Jsonl,
    Csv,
}

/// A row that could not be turned into an event.
#[derive(Debug, Clone)]
pub struct IngestIssue {
    pub row: usize,
    pub code: String,
    pub message: String,
    pub raw: String,
}

/// The outcome of ingesting one input: the accepted events in order, the
/// rejected rows, the ids seen more than once, and how many rows there were.
#[derive(Debug, Clone)]
pub struct IngestReport {
    pub events: Vec<EventRecord>,
    pub invalid: Vec<IngestIssue>,
    pub duplicate_ids: Vec<String>,
    pub total_rows: usize,
}

/// What `String::from_utf8_lossy` makes of a byte string.
pub uninterp spec fn utf8_lossy(bytes: Seq<u8>) -> Seq<char>;

/// `String::from_utf8_lossy`. The contract names the decoded text and
/// states what the documentation promises of valid input: it is decoded
/// unchanged. How invalid sequences become U+FFFD is not restated.
#[verifier::external_body]
fn decode_lossy(bytes: &[u8]) -> (r: String)
    ensures
        r@ == utf8_lossy(bytes@),
        (exists|s: Seq<char>| utf8(s) == bytes@) ==> utf8(r@) == bytes@,
{
    String::from_utf8_lossy(bytes).into_owned()
}

/// `l` without one trailing carriage return.
pub open spec fn strip_cr(l: Seq<char>) -> Seq<char> {
    if l.len() > 0 && l.last() == '\r' {
        l.drop_last()
    } else {
        l
    }
}

/// The lines ended so far and the text of the line still open.
pub open spec fn line_scan(s: Seq<char>) -> (Seq<Seq<char>>, Seq<char>)
    decreases s.len(),
{
    if s.len() == 0 {
        (Seq::empty(), Seq::empty())
    } else {
        let (done, cur) = line_scan(s.drop_last());
        if s.last() == '\n' {
            (done.push(strip_cr(cur)), Seq::empty())
        } else {
            (done, cur.push(s.last()))
        }
    }
}

/// The lines of a text as `str::lines` yields them: split at `\n`, a
/// `\r` before it dropped, no empty line after a final `\n`.
pub open spec fn text_lines(s: Seq<char>) -> Seq<Seq<char>> {
    let (done, cur) = line_scan(s);
    if cur.len() == 0 {
        done
    } else {
        done.push(cur)
    }
}

/// The lines that hold more than white space, each with its line number
/// counted from one.
pub open spec fn numbered_rows(lines: Seq<Seq<char>>) -> Seq<(int, Seq<char>)>
    decreases lines.len(),
{
    if lines.len() == 0 {
        Seq::empty()
    } else {
        let prev = numbered_rows(lines.drop_last());
        if all_white(lines.last()) {
            prev
        } else {
            prev.push((lines.len() as int, lines.last()))
        }
    }
}

pub open spec fn row_views(rows: Seq<(usize, String)>) -> Seq<(int, Seq<char>)> {
    rows.map_values(|r: (usize, String)| (r.0 as int, r.1@))
}

proof fn lemma_scan_push(s: Seq<char>, c: char)
    ensures
        line_scan(s.push(c)) == (if c == '\n' {
            (line_scan(s).0.push(strip_cr(line_scan(s).1)), Seq::<char>::empty())
        } else {
            (line_scan(s).0, line_scan(s).1.push(c))
        }),
{
    assert(s.push(c).drop_last() =~= s);
}

/// The non-blank lines of a JSON Lines text with their line numbers.
pub fn jsonl_rows(text: &str) -> (r: Vec<(usize, String)>)
    ensures
        row_views(r@) == numbered_rows(text_lines(text@)),
{
    let cs = chars_of(text);
    let mut r: Vec<(usize, String)> = Vec::new();
    let mut cur: Vec<char> = Vec::new();
    let mut line_no: usize = 0;
    let mut i: usize = 0;
    while i < cs.len()
        invariant
            i <= cs.len(),
            cs@ == text@,
            line_scan(cs@.take(i as int)).0.len() == line_no,
            line_no + cur@.len() <= i,
            line_scan(cs@.take(i as int)).1 == cur@,
            row_views(r@) == numbered_rows(line_scan(cs@.take(i as int)).0),
        decreases cs.len() - i,
    {
        let c = cs[i];
        proof {
            assert(cs@.take(i + 1) =~= cs@.take(i as int).push(c));
            lemma_scan_push(cs@.take(i as int), c);
        }
        if c == '\n' {
            let ghost done = line_scan(cs@.take(i as int)).0;
            let mut line = cur;
            if line.len() > 0 && line[line.len() - 1] == '\r' {
                line.pop();
            }
            assert(line@ == strip_cr(cur@)) by {
                if cur@.len() > 0 && cur@.last() == '\r' {
                    assert(line@ =~= cur@.drop_last());
                }
            }
            line_no += 1;
            if !all_white_exec(line.as_slice()) {
                r.push((line_no, string_of(line.as_slice())));
            }
            proof {
                let nd = done.push(line@);
                assert(nd.drop_last() =~= done);
                assert(row_views(r@) =~= numbered_rows(nd));
            }
            cur = Vec::new();
        } else {
            cur.push(c);
        }
        i += 1;
    }
    proof {
        assert(cs@.take(cs.len() as int) =~= cs@);
    }
    if cur.len() > 0 {
        let ghost done = line_scan(cs@).0;
        line_no += 1;
        if !all_white_exec(cur.as_slice()) {
            r.push((line_no, string_of(cur.as_slice())));
        }
        proof {
            let nd = done.push(cur@);
            assert(nd.drop_last() =~= done);
            assert(row_views(r@) =~= numbered_rows(nd));
        }
    }
    r
}

/// The non-blank lines of JSON Lines input, decoded as UTF-8 with invalid
/// sequences replaced, with their line numbers.
pub fn jsonl_rows_from_bytes(bytes: &[u8]) -> (r: Vec<(usize, String)>)
    ensures
        row_views(r@) == numbered_rows(text_lines(utf8_lossy(bytes@))),
{
    let text = decode_lossy(bytes);
    jsonl_rows(text.as_str())
}

/// What `serde_json::from_str::<BTreeMap<String, String>>` makes of a
/// text: the entries in key order, or the error's message.
pub uninterp spec fn json_string_map(text: Seq<char>) -> Result<Seq<(Seq<char>, Seq<char>)>, Seq<char>>;

pub open spec fn pair_views(v: Seq<(String, String)>) -> Seq<(Seq<char>, Seq<char>)> {
    v.map_values(|p: (String, String)| (p.0@, p.1@))
}

/// `serde_json::from_str` into a `BTreeMap<String, String>`, its entries
/// handed out in the map's order, or the error's `to_string()`. The
/// contract names the outcome and states that a `BTreeMap` yields its keys
/// in increasing order; JSON syntax is not restated.
#[verifier::external_body]
fn parse_string_map(text: &str) -> (r: Result<Vec<(String, String)>, String>)
    ensures
        match json_string_map(text@) {
            Ok(m) => r is Ok && pair_views(r->Ok_0@) == m,
            Err(msg) => r is Err && r->Err_0@ == msg,
        },
        r matches Ok(v) ==> forall|a: int, b: int| 0 <= a < b < v@.len() ==> text_lt(v@[a].0@, v@[b].0@),
{
    match serde_json::from_str::<std::collections::BTreeMap<String, String>>(text) {
        Ok(map) => Ok(map.into_iter().collect()),
        Err(error) => Err(error.to_string()),
    }
}

/// One CSV record as read: `attributes_json` holds the attributes as a JSON
/// object, or nothing.
#[derive(Debug, Clone)]
pub struct CsvEventRow {
    pub id: String,
    pub timestamp: Timestamp,
    pub source: String,
    pub event_type: String,
    pub user: Option<String>,
    pub host: Option<String>,
    pub source_ip: Option<String>,
    pub outcome: Outcome,
    pub severity: Severity,
    pub message: String,
    pub attributes_json: String,
}

/// An optional field with an empty value counts as absent.
pub open spec fn non_empty(o: Option<String>) -> Option<String> {
    match o {
        Some(v) => if v@.len() == 0 {
            None
        } else {
            Some(v)
        },
        None => None,
    }
}

fn keep_non_empty(o: Option<String>) -> (r: Option<String>)
    ensures
        r == non_empty(o),
{
    match o {
        Some(v) => if chars_of(v.as_str()).len() == 0 {
            None
        } else {
            Some(v)
        },
        None => None,
    }
}

impl CsvEventRow {
    /// The event a record describes, or the message of the error that its
    /// attribute JSON gave.
    pub open spec fn event_of(self, e: EventRecord) -> bool {
        &&& e.id == self.id
        &&& e.timestamp == self.timestamp
        &&& e.source == self.source
        &&& e.event_type == self.event_type
        &&& e.user == non_empty(self.user)
        &&& e.host == non_empty(self.host)
        &&& e.source_ip == non_empty(self.source_ip)
        &&& e.outcome == self.outcome
        &&& e.severity == self.severity
        &&& e.message == self.message
        &&& if all_white(self.attributes_json@) {
            e.attributes@.len() == 0
        } else {
            json_string_map(self.attributes_json@) == Ok::<Seq<(Seq<char>, Seq<char>)>, Seq<char>>(pair_views(e.attributes@))
        }
    }

    pub fn into_event(self) -> (r: Result<EventRecord, String>)
        ensures
            match r {
                Ok(e) => self.event_of(e) && attrs_sorted(e.attributes@),
                Err(m) => !all_white(self.attributes_json@) && json_string_map(self.attributes_json@) == Err::<
                    Seq<(Seq<char>, Seq<char>)>,
                    Seq<char>,
                >(m@),
            },
    {
        let js = chars_of(self.attributes_json.as_str());
        let attributes = if all_white_exec(js.as_slice()) {
            Vec::new()
        } else {
            match parse_string_map(self.attributes_json.as_str()) {
                Ok(v) => v,
                Err(m) => {
                    return Err(m);
                },
            }
        };
        Ok(EventRecord {
            id: self.id,
            timestamp: self.timestamp,
            source: self.source,
            event_type: self.event_type,
            user: keep_non_empty(self.user),
            host: keep_non_empty(self.host),
            source_ip: keep_non_empty(self.source_ip),
            outcome: self.outcome,
            severity: self.severity,
            message: self.message,
            attributes,
        })
    }
}

/// The issue for a JSON line that did not parse: its line number, the
/// parser's message and the line's first 240 characters.
pub open spec fn jsonl_issue(issue: IngestIssue, row: int, line: Seq<char>, message: Seq<char>) -> bool {
    &&& issue.row == row
    &&& issue.code@ == "invalid_json"@
    &&& issue.message@ == message
    &&& issue.raw@ == line.take(if line.len() < 240 { line.len() as int } else { 240 })
}

/// A JSON line's contribution: its event, or an issue when it did not
/// parse (`parsed` carries the parser's message).
pub fn jsonl_row_outcome(row: usize, line: &str, parsed: Result<EventRecord, String>) -> (r: Result<EventRecord, IngestIssue>)
    ensures
        match parsed {
            Ok(e) => r == Ok::<EventRecord, IngestIssue>(e),
            Err(m) => r matches Err(issue) && jsonl_issue(issue, row as int, line@, m@),
        },
{
    match parsed {
        Ok(e) => Ok(e),
        Err(message) => {
            let cs = chars_of(line);
            let n = if cs.len() < 240 {
                cs.len()
            } else {
                240
            };
            let raw = string_of(crate::text::take_chars(cs.as_slice(), n).as_slice());
            Err(IngestIssue { row, code: String::from_str("invalid_json"), message, raw })
        },
    }
}

/// The issue for CSV record number `index` (from zero; the header is row
/// one): `code`, the message, no raw text.
pub open spec fn csv_issue(issue: IngestIssue, index: int, code: Seq<char>, message: Seq<char>) -> bool {
    &&& issue.row == index + 2
    &&& issue.code@ == code
    &&& issue.message@ == message
    &&& issue.raw@.len() == 0
}

/// A CSV record's contribution: its event, or an issue when the record
/// could not be read (`row` carries the reader's message) or its attribute
/// JSON is invalid.
pub fn csv_row_outcome(index: usize, row: Result<CsvEventRow, String>) -> (r: Result<EventRecord, IngestIssue>)
    requires
        index + 2 <= usize::MAX,
    ensures
        match row {
            Ok(rec) => match r {
                Ok(e) => rec.event_of(e) && attrs_sorted(e.attributes@),
                Err(issue) => !all_white(rec.attributes_json@) && json_string_map(rec.attributes_json@) is Err
                    && csv_issue(issue, index as int, "invalid_attributes"@, json_string_map(rec.attributes_json@)->Err_0),
            },
            Err(m) => r matches Err(issue) && csv_issue(issue, index as int, "invalid_csv"@, m@),
        },
{
    match row {
        Ok(rec) => match rec.into_event() {
            Ok(e) => Ok(e),
            Err(message) => Err(IngestIssue {
                row: index + 2,
                code: String::from_str("invalid_attributes"),
                message,
                raw: String::new(),
            }),
        },
        Err(message) => Err(IngestIssue {
            row: index + 2,
            code: String::from_str("invalid_csv"),
            message,
            raw: String::new(),
        }),
    }
}

/// The events among the rows, in row order.
pub open spec fn oks_of(rows: Seq<Result<EventRecord, IngestIssue>>) -> Seq<EventRecord>
    decreases rows.len(),
{
    if rows.len() == 0 {
        Seq::empty()
    } else {
        let prev = oks_of(rows.drop_last());
        match rows.last() {
            Ok(e) => prev.push(e),
            Err(_) => prev,
        }
    }
}

/// The issues among the rows, in row order.
pub open spec fn errs_of(rows: Seq<Result<EventRecord, IngestIssue>>) -> Seq<IngestIssue>
    decreases rows.len(),
{
    if rows.len() == 0 {
        Seq::empty()
    } else {
        let prev = errs_of(rows.drop_last());
        match rows.last() {
            Ok(_) => prev,
            Err(i) => prev.push(i),
        }
    }
}

/// `out` is `raw` with every blank id replaced by the event's fingerprint.
pub open spec fn normalized(raw: Seq<EventRecord>, out: Seq<EventRecord>) -> bool {
    &&& raw.len() == out.len()
    &&& forall|k: int| 0 <= k < out.len() ==> (#[trigger] out[k]).id@ == raw[k].normalized_id() && out[k].same_but_id(raw[k])
}

pub open spec fn id_views(events: Seq<EventRecord>) -> Seq<Seq<char>> {
    events.map_values(|e: EventRecord| e.id@)
}

/// `v` occurs at two different positions.
pub open spec fn repeated(ids: Seq<Seq<char>>, v: Seq<char>) -> bool {
    exists|i: int, j: int| 0 <= i < ids.len() && 0 <= j < ids.len() && i != j && #[trigger] ids[i] == v && #[trigger] ids[j] == v
}

/// Position `p` holds the first occurrence of its value.
pub open spec fn first_at(ids: Seq<Seq<char>>, p: int) -> bool {
    forall|q: int| 0 <= q < p ==> #[trigger] ids[q] != ids[p]
}

proof fn lemma_first_occurrence(ids: Seq<Seq<char>>, p: int)
    requires
        0 <= p < ids.len(),
    ensures
        exists|q: int| 0 <= q <= p && first_at(ids, q) && ids[q] == ids[p],
    decreases p,
{
    if !first_at(ids, p) {
        let q = choose|q: int| 0 <= q < p && ids[q] == ids[p];
        lemma_first_occurrence(ids, q);
    } else {
        assert(first_at(ids, p) && ids[p] == ids[p]);
    }
}

/// The ids that occur more than once, each listed once, in order of first
/// occurrence.
fn repeated_ids(events: &Vec<EventRecord>) -> (r: Vec<String>)
    ensures
        forall|a: int, b: int| 0 <= a < r.len() && 0 <= b < r.len() && a != b ==> (#[trigger] r@[a])@ != (#[trigger] r@[b])@,
        forall|v: Seq<char>| strings(r@).contains(v) <==> repeated(id_views(events@), v),
{
    let ghost ids = id_views(events@);
    let n = events.len();
    let mut trie = PrefixTrie::new();
    let mut i: usize = 0;
    while i < n
        invariant
            i <= n,
            n == events.len(),
            ids == id_views(events@),
            trie.wf(),
            forall|k: Seq<char>, x: usize| trie.contents().contains((k, x)) <==> (x < i && ids[x as int] == k),
        decreases n - i,
    {
        let key = chars_of(events[i].id.as_str());
        let ghost c0 = trie.contents();
        proof {
            assert forall|k: Seq<char>, x: usize| c0.contains((k, x)) implies x <= i by {}
        }
        trie.insert(key.as_slice(), i);
        proof {
            assert(ids[i as int] == key@);
            assert forall|k: Seq<char>, x: usize| trie.contents().contains((k, x)) <==> (x < i + 1 && ids[x as int] == k) by {
                if x == i {
                    assert(trie.contents().contains((key@, i)));
                }
            }
        }
        i += 1;
    }
    let mut out: Vec<String> = Vec::new();
    let mut i: usize = 0;
    while i < n
        invariant
            i <= n,
            n == events.len(),
            ids == id_views(events@),
            trie.wf(),
            forall|k: Seq<char>, x: usize| trie.contents().contains((k, x)) <==> (x < n && ids[x as int] == k),
            forall|v: Seq<char>|
                strings(out@).contains(v) <==> exists|p: int| 0 <= p < i && first_at(ids, p) && #[trigger] ids[p] == v && repeated(ids, v),
            forall|a: int, b: int| 0 <= a < out.len() && 0 <= b < out.len() && a != b ==> (#[trigger] out@[a])@ != (#[trigger] out@[b])@,
        decreases n - i,
    {
        let key = chars_of(events[i].id.as_str());
        let ps = trie.find_exact(key.as_slice());
        let ghost v = key@;
        proof {
            assert(ids[i as int] == v);
            assert(trie.contents().contains((v, i)));
            assert(ps@.contains(i));
        }
        let ghost before = out@;
        let push = ps.len() > 1 && ps[0] == i;
        if push {
            out.push(string_of(key.as_slice()));
        }
        proof {
            let t = choose|t: int| 0 <= t < ps@.len() && ps@[t] == i;
            assert(ps@[0] <= i) by {
                if t > 0 {
                    assert(ps@[0] < ps@[t]);
                }
            }
            if push {
                assert(first_at(ids, i as int)) by {
                    assert forall|q: int| 0 <= q < i implies #[trigger] ids[q] != ids[i as int] by {
                        if ids[q] == ids[i as int] {
                            assert(trie.contents().contains((v, q as usize)));
                            assert(ps@.contains(q as usize));
                            let w = choose|w: int| 0 <= w < ps@.len() && ps@[w] == q as usize;
                            if w > 0 {
                                assert(ps@[0] < ps@[w]);
                            }
                        }
                    }
                }
                assert(repeated(ids, v)) by {
                    assert(ps@.contains(ps@[0]));
                    assert(ps@.contains(ps@[1]));
                    assert(trie.contents().contains((v, ps@[1])));
                    assert(ps@[0] < ps@[1]);
                    assert(ids[ps@[0] as int] == v && ids[ps@[1] as int] == v);
                }
                assert(!strings(before).contains(v)) by {
                    if strings(before).contains(v) {
                        let p = choose|p: int| 0 <= p < i && first_at(ids, p) && #[trigger] ids[p] == v && repeated(ids, v);
                        assert(ids[p] == ids[i as int]);
                    }
                }
                assert(strings(out@) =~= strings(before).push(v));
                assert forall|a: int, b: int| 0 <= a < out.len() && 0 <= b < out.len() && a != b implies (#[trigger] out@[a])@ != (#[trigger] out@[b])@ by {
                    if a == out.len() - 1 {
                        assert(strings(before)[b] == out@[b]@);
                    } else if b == out.len() - 1 {
                        assert(strings(before)[a] == out@[a]@);
                    }
                }
            } else {
                assert(strings(out@) == strings(before));
                if first_at(ids, i as int) && repeated(ids, v) {
                    assert(ps@[0] == i) by {
                        assert(ps@.contains(ps@[0]));
                        assert(trie.contents().contains((v, ps@[0])));
                        if ps@[0] < i {
                            assert(ids[ps@[0] as int] == ids[i as int]);
                        }
                    }
                    let (x, y) = choose|x: int, y: int| 0 <= x < ids.len() && 0 <= y < ids.len() && x != y && #[trigger] ids[x] == v && #[trigger] ids[y] == v;
                    assert(trie.contents().contains((v, x as usize)));
                    assert(trie.contents().contains((v, y as usize)));
                    assert(ps@.contains(x as usize));
                    assert(ps@.contains(y as usize));
                    assert(ps.len() > 1) by {
                        if ps.len() <= 1 {
                            let wx = choose|w: int| 0 <= w < ps@.len() && ps@[w] == x as usize;
                            let wy = choose|w: int| 0 <= w < ps@.len() && ps@[w] == y as usize;
                        }
                    }
                }
            }
            assert forall|w: Seq<char>|
                strings(out@).contains(w) <==> exists|p: int| 0 <= p < i + 1 && first_at(ids, p) && #[trigger] ids[p] == w && repeated(ids, w) by {
                if strings(out@).contains(w) && !strings(before).contains(w) {
                    assert(w == v);
                    assert(0 <= i < i + 1 && first_at(ids, i as int) && ids[i as int] == w && repeated(ids, w));
                }
                if exists|p: int| 0 <= p < i + 1 && first_at(ids, p) && #[trigger] ids[p] == w && repeated(ids, w) {
                    let p = choose|p: int| 0 <= p < i + 1 && first_at(ids, p) && #[trigger] ids[p] == w && repeated(ids, w);
                    if p < i {
                        assert(strings(before).contains(w));
                        let z = choose|z: int| 0 <= z < before.len() && strings(before)[z] == w;
                        assert(strings(out@)[z] == w);
                    } else {
                        assert(push);
                        assert(strings(out@)[out.len() - 1] == w);
                    }
                }
            }
        }
        i += 1;
    }
    proof {
        assert forall|w: Seq<char>| repeated(ids, w) implies strings(out@).contains(w) by {
            let (x, y) = choose|x: int, y: int| 0 <= x < ids.len() && 0 <= y < ids.len() && x != y && #[trigger] ids[x] == w && #[trigger] ids[y] == w;
            lemma_first_occurrence(ids, x);
        }
    }
    out
}

/// Assembles a report from the rows of one input: blank ids get their
/// fingerprint, events are ordered by time and then id (ties keep row
/// order), and the ids that occur more than once are listed.
pub fn ingest_rows(rows: Vec<Result<EventRecord, IngestIssue>>) -> (r: IngestReport)
    requires
        forall|k: int| 0 <= k < rows.len() ==> (#[trigger] rows@[k] matches Ok(e) ==> e.timestamp.wf()),
    ensures
        r.total_rows == rows.len(),
        r.invalid@ == errs_of(rows@),
        exists|norm: Seq<EventRecord>| normalized(oks_of(rows@), norm) && stably_sorted(norm, r.events@),
        forall|a: int, b: int|
            0 <= a < r.duplicate_ids.len() && 0 <= b < r.duplicate_ids.len() && a != b ==> (#[trigger] r.duplicate_ids@[a])@
                != (#[trigger] r.duplicate_ids@[b])@,
        forall|v: Seq<char>| strings(r.duplicate_ids@).contains(v) <==> repeated(id_views(r.events@), v),
{
    let ghost r0 = rows@;
    let n = rows.len();
    let mut rest = rows;
    let mut rev: Vec<Result<EventRecord, IngestIssue>> = Vec::new();
    while rest.len() > 0
        invariant
            rest.len() + rev.len() == n,
            n == r0.len(),
            forall|q: int| 0 <= q < rest.len() ==> #[trigger] rest@[q] == r0[q],
            forall|q: int| 0 <= q < rev.len() ==> #[trigger] rev@[q] == r0[n - 1 - q],
        decreases rest.len(),
    {
        let x = rest.pop().unwrap();
        rev.push(x);
    }
    let mut events: Vec<EventRecord> = Vec::new();
    let mut invalid: Vec<IngestIssue> = Vec::new();
    let mut k: usize = 0;
    while rev.len() > 0
        invariant
            k + rev.len() == n,
            n == r0.len(),
            forall|q: int| 0 <= q < rev.len() ==> #[trigger] rev@[q] == r0[n - 1 - q],
            forall|q: int| 0 <= q < n ==> (#[trigger] r0[q] matches Ok(e) ==> e.timestamp.wf()),
            normalized(oks_of(r0.take(k as int)), events@),
            invalid@ == errs_of(r0.take(k as int)),
            forall|q: int| 0 <= q < events.len() ==> (#[trigger] events@[q]).timestamp.wf(),
        decreases rev.len(),
    {
        let row = rev.pop().unwrap();
        let ghost before = r0.take(k as int);
        proof {
            assert(row == r0[k as int]);
            assert(r0.take(k + 1).drop_last() =~= before);
            assert(r0.take(k + 1).last() == r0[k as int]);
        }
        match row {
            Ok(e) => {
                let mut e = e;
                e.ensure_id();
                let ghost ev0 = events@;
                events.push(e);
                proof {
                    assert forall|q: int| 0 <= q < events.len() implies (#[trigger] events@[q]).id@ == oks_of(r0.take(k + 1))[q].normalized_id()
                        && events@[q].same_but_id(oks_of(r0.take(k + 1))[q]) by {
                        if q < ev0.len() {
                            assert(events@[q] == ev0[q]);
                        }
                    }
                }
            },
            Err(issue) => {
                invalid.push(issue);
            },
        }
        k += 1;
    }
    proof {
        assert(r0.take(n as int) =~= r0);
    }
    let ghost norm = events@;
    let sorted = sort_events(events);
    let duplicate_ids = repeated_ids(&sorted);
    IngestReport { events: sorted, invalid, duplicate_ids, total_rows: n }
}

/// Every row is accounted for: it is either an event or an issue.
pub proof fn lemma_rows_accounted(rows: Seq<Result<EventRecord, IngestIssue>>)
    ensures
        oks_of(rows).len() + errs_of(rows).len() == rows.len(),
    decreases rows.len(),
{
    if rows.len() > 0 {
        lemma_rows_accounted(rows.drop_last());
    }
}

} // verus!
