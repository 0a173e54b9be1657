//! Explainable detection rules over time-ordered events: brute force
//! against one account, password spraying from one address, success right
//! after repeated failures, and lateral movement across hosts. Each rule
//! keeps, per entity, a sliding window of recent matching events.

use crate::event::{copy_event, EventRecord, Outcome, Severity};
use crate::index::{event_before, lemma_before_total, lemma_prec_facts, prec, same_key, sort_events, stably_sorted};
use crate::sort::{
    key_views, lemma_listing_by_unique, lemma_text_lt_irrefl, lemma_text_lt_total, lemma_text_lt_trans, listing_by, permute,
    stable_order, strict_total, text_less, text_lt, SortKey,
};
use crate::text::{chars_of, dec, dec_int, push_dec, push_dec_i64, push_str, seq_eq, string_of, views};
use crate::time::Timestamp;
use std::collections::VecDeque;
use vstd::prelude::*;

verus! {

broadcast use vstd::string::group_string_axioms;

/// The rule that produced a detection.
#[derive(Debug, Clone, Copy, PartialEq, Eq, Structural)]
pub enum DetectionKind {
    BruteForce,
    PasswordSpray,
    FailureThenSuccess,
    LateralMovement,
}

impl DetectionKind {
    /// The rule's name in kebab case.
    pub open spec fn slug(self) -> Seq<char> {
        match self {
            DetectionKind::BruteForce => "brute-force"@,
            DetectionKind::PasswordSpray => "password-spray"@,
            DetectionKind::FailureThenSuccess => "failure-then-success"@,
            DetectionKind::LateralMovement => "lateral-movement"@,
        }
    }

    pub fn slug_string(self) -> (r: String)
        ensures
            r@ == self.slug(),
    {
        match self {
            DetectionKind::BruteForce => String::from_str("brute-force"),
            DetectionKind::PasswordSpray => String::from_str("password-spray"),
            DetectionKind::FailureThenSuccess => String::from_str("failure-then-success"),
            DetectionKind::LateralMovement => String::from_str("lateral-movement"),
        }
    }
}

/// A detection with its evidence: the events in the window that fired
/// the rule, the entities involved and a readable explanation. The
/// evidence pairs are listed by key.
#[derive(Debug, Clone)]
pub struct Detection {
    pub id: String,
    pub kind: DetectionKind,
    pub severity: Severity,
    pub started_at: Timestamp,
    pub ended_at: Timestamp,
    pub entities: Vec<String>,
    pub event_ids: Vec<String>,
    pub explanation: String,
    pub evidence: Vec<(String, String)>,
}

/// Thresholds and the window length of the rules.
#[derive(Debug, Clone)]
pub struct DetectorConfig {
    pub brute_force_failures: usize,
    pub spray_accounts: usize,
    pub window_seconds: i64,
    pub lateral_hosts: usize,
}

impl Default for DetectorConfig {
    fn default() -> (r: Self)
        ensures
            r.brute_force_failures == 5,
            r.spray_accounts == 5,
            r.window_seconds == 300,
            r.lateral_hosts == 3,
    {
        DetectorConfig { brute_force_failures: 5, spray_accounts: 5, window_seconds: 300, lateral_hosts: 3 }
    }
}

/// The instant `seconds` before `t`, as `DateTime - Duration::seconds` gives it.
pub open spec fn cutoff_of(t: Timestamp, seconds: int) -> Timestamp {
    Timestamp { secs: t.shifted_back(seconds).0 as i64, nanos: t.shifted_back(seconds).1 as u32 }
}

/// A window after dropping, from its front, the events older than `cutoff`.
pub open spec fn evicted(ev: Seq<EventRecord>, win: Seq<int>, cutoff: Timestamp) -> Seq<int>
    decreases win.len(),
{
    if win.len() > 0 && ev[win[0]].timestamp.lt(cutoff) {
        evicted(ev, win.drop_first(), cutoff)
    } else {
        win
    }
}

/// Drops from the front of the window the events older than `cutoff`.
fn evict(ev: &Vec<EventRecord>, win: &mut VecDeque<usize>, cutoff: &Timestamp)
    requires
        forall|k: int| 0 <= k < old(win)@.len() ==> (#[trigger] old(win)@[k]) < ev.len(),
    ensures
        final(win)@.map_values(|x: usize| x as int) == evicted(ev@, old(win)@.map_values(|x: usize| x as int), *cutoff),
        forall|k: int| 0 <= k < final(win)@.len() ==> (#[trigger] final(win)@[k]) < ev.len(),
{
    let ghost w0 = win@.map_values(|x: usize| x as int);
    while win.len() > 0 && ev[win[0]].timestamp.is_before(cutoff)
        invariant
            forall|k: int| 0 <= k < win@.len() ==> (#[trigger] win@[k]) < ev.len(),
            evicted(ev@, win@.map_values(|x: usize| x as int), *cutoff) == evicted(ev@, w0, *cutoff),
        decreases win@.len(),
    {
        let ghost before = win@;
        assert(before.map_values(|x: usize| x as int).drop_first() =~= before.subrange(1, before.len() as int).map_values(|x: usize| x as int));
        let _ = win.pop_front();
    }
    assert(win.len() > 0 ==> win@.map_values(|x: usize| x as int)[0] == win@[0] as int);
}

/// The three rules that fire once per entity.
#[derive(Debug, Clone, Copy, PartialEq, Eq, Structural)]
pub enum WindowRule {
    /// Failed sign-ins per account.
    Brute,
    /// Failed sign-ins per source IP, counting distinct accounts.
    Spray,
    /// High-severity successful sign-ins per account, counting distinct hosts.
    Lateral,
}

/// The event counts for the rule.
pub open spec fn admits(rule: WindowRule, e: EventRecord) -> bool {
    match rule {
        WindowRule::Brute => e.outcome == Outcome::Failure && e.user is Some,
        WindowRule::Spray => e.outcome == Outcome::Failure && e.source_ip is Some,
        WindowRule::Lateral => e.outcome == Outcome::Success && e.severity.rank() >= Severity::High.rank()
            && e.user is Some && e.host is Some,
    }
}

/// The entity whose window an admitted event joins.
pub open spec fn rule_key(rule: WindowRule, e: EventRecord) -> Seq<char> {
    match rule {
        WindowRule::Spray => e.source_ip->Some_0@,
        _ => e.user->Some_0@,
    }
}

/// Window length in seconds.
pub open spec fn span(rule: WindowRule, cfg: DetectorConfig) -> int {
    match rule {
        WindowRule::Lateral => cfg.window_seconds * 3,
        _ => cfg.window_seconds as int,
    }
}

/// The values listed once each, in order of first appearance.
pub open spec fn distinct(vals: Seq<Seq<char>>) -> Seq<Seq<char>>
    decreases vals.len(),
{
    if vals.len() == 0 {
        Seq::empty()
    } else {
        let prev = distinct(vals.drop_last());
        if prev.contains(vals.last()) {
            prev
        } else {
            prev.push(vals.last())
        }
    }
}

/// The optional values of the window's events, present ones only.
pub open spec fn present(vals: Seq<Option<String>>) -> Seq<Seq<char>>
    decreases vals.len(),
{
    if vals.len() == 0 {
        Seq::empty()
    } else {
        let prev = present(vals.drop_last());
        match vals.last() {
            Some(v) => prev.push(v@),
            None => prev,
        }
    }
}

/// The accounts (spray) or hosts (lateral) a window's events name.
pub open spec fn named(rule: WindowRule, ev: Seq<EventRecord>, win: Seq<int>) -> Seq<Seq<char>> {
    match rule {
        WindowRule::Spray => distinct(present(win.map_values(|j: int| ev[j].user))),
        _ => distinct(present(win.map_values(|j: int| ev[j].host))),
    }
}

/// What the rule counts in a window.
pub open spec fn measure(rule: WindowRule, ev: Seq<EventRecord>, win: Seq<int>) -> int {
    match rule {
        WindowRule::Brute => win.len() as int,
        _ => named(rule, ev, win).len() as int,
    }
}

/// The count at which the rule fires.
pub open spec fn threshold(rule: WindowRule, cfg: DetectorConfig) -> int {
    match rule {
        WindowRule::Brute => cfg.brute_force_failures as int,
        WindowRule::Spray => cfg.spray_accounts as int,
        WindowRule::Lateral => cfg.lateral_hosts as int,
    }
}

/// A rule's progress: each entity's window, the entities already
/// reported, and the firings so far (event position and window).
pub struct RuleState {
    pub windows: Map<Seq<char>, Seq<int>>,
    pub detected: Set<Seq<char>>,
    pub hits: Seq<(int, Seq<int>)>,
}

/// The rule after event `i`.
pub open spec fn rule_step(rule: WindowRule, ev: Seq<EventRecord>, cfg: DetectorConfig, st: RuleState, i: int) -> RuleState {
    let e = ev[i];
    if !admits(rule, e) {
        st
    } else {
        let key = rule_key(rule, e);
        let win0 = if st.windows.contains_key(key) {
            st.windows[key]
        } else {
            Seq::empty()
        };
        let win = evicted(ev, win0, cutoff_of(e.timestamp, span(rule, cfg))).push(i);
        let fire = measure(rule, ev, win) >= threshold(rule, cfg) && !st.detected.contains(key);
        RuleState {
            windows: st.windows.insert(key, win),
            detected: if fire {
                st.detected.insert(key)
            } else {
                st.detected
            },
            hits: if fire {
                st.hits.push((i, win))
            } else {
                st.hits
            },
        }
    }
}

/// The rule after the first `k` events.
pub open spec fn rule_state(rule: WindowRule, ev: Seq<EventRecord>, cfg: DetectorConfig, k: int) -> RuleState
    decreases k,
{
    if k <= 0 {
        RuleState { windows: Map::empty(), detected: Set::empty(), hits: Seq::empty() }
    } else {
        rule_step(rule, ev, cfg, rule_state(rule, ev, cfg, k - 1), k - 1)
    }
}

/// A detection in terms of plain values.
pub struct DetectionView {
    pub id: Seq<char>,
    pub kind: DetectionKind,
    pub severity: Severity,
    pub started_at: Timestamp,
    pub ended_at: Timestamp,
    pub entities: Seq<Seq<char>>,
    pub event_ids: Seq<Seq<char>>,
    pub explanation: Seq<char>,
    pub evidence: Seq<(Seq<char>, Seq<char>)>,
}

pub open spec fn strings(v: Seq<String>) -> Seq<Seq<char>> {
    v.map_values(|s: String| s@)
}

pub open spec fn string_pairs(v: Seq<(String, String)>) -> Seq<(Seq<char>, Seq<char>)> {
    v.map_values(|p: (String, String)| (p.0@, p.1@))
}

impl Detection {
    pub open spec fn view_of(self) -> DetectionView {
        DetectionView {
            id: self.id@,
            kind: self.kind,
            severity: self.severity,
            started_at: self.started_at,
            ended_at: self.ended_at,
            entities: strings(self.entities@),
            event_ids: strings(self.event_ids@),
            explanation: self.explanation@,
            evidence: string_pairs(self.evidence@),
        }
    }
}

/// Text with every `.` turned into `-`.
pub open spec fn dashed(s: Seq<char>) -> Seq<char> {
    s.map_values(|c: char| if c == '.' { '-' } else { c })
}

/// The detection a rule reports when event `i` fires it with window `win`.
pub open spec fn rule_detection(rule: WindowRule, ev: Seq<EventRecord>, cfg: DetectorConfig, i: int, win: Seq<int>) -> DetectionView {
    let e = ev[i];
    let key = rule_key(rule, e);
    let secs = dec_int(e.timestamp.secs as int);
    let ids = win.map_values(|j: int| ev[j].id@);
    let w = dec_int(cfg.window_seconds as int);
    let names = named(rule, ev, win);
    match rule {
        WindowRule::Brute => DetectionView {
            id: "brute-force-"@ + key + "-"@ + secs,
            kind: DetectionKind::BruteForce,
            severity: Severity::High,
            started_at: ev[win[0]].timestamp,
            ended_at: e.timestamp,
            entities: seq!["user:"@ + key],
            event_ids: ids,
            explanation: dec(win.len()) + " failed authentications for one account inside a "@ + w
                + " second sliding window."@,
            evidence: seq![("failures"@, dec(win.len())), ("window_seconds"@, w)],
        },
        WindowRule::Spray => DetectionView {
            id: "password-spray-"@ + dashed(key) + "-"@ + secs,
            kind: DetectionKind::PasswordSpray,
            severity: Severity::High,
            started_at: ev[win[0]].timestamp,
            ended_at: e.timestamp,
            entities: seq!["ip:"@ + key] + names.map_values(|u: Seq<char>| "user:"@ + u),
            event_ids: ids,
            explanation: "One source IP failed against "@ + dec(names.len()) + " distinct accounts inside a "@ + w
                + " second sliding window."@,
            evidence: seq![("distinct_accounts"@, dec(names.len())), ("window_seconds"@, w)],
        },
        WindowRule::Lateral => DetectionView {
            id: "lateral-"@ + key + "-"@ + secs,
            kind: DetectionKind::LateralMovement,
            severity: Severity::High,
            started_at: ev[win[0]].timestamp,
            ended_at: e.timestamp,
            entities: seq!["user:"@ + key] + names.map_values(|h: Seq<char>| "host:"@ + h),
            event_ids: ids,
            explanation: "One identity authenticated successfully on "@ + dec(names.len())
                + " distinct hosts inside the correlation window."@,
            evidence: seq![("distinct_hosts"@, dec(names.len()))],
        },
    }
}

fn admits_exec(rule: WindowRule, e: &EventRecord) -> (r: bool)
    ensures
        r == admits(rule, *e),
{
    match rule {
        WindowRule::Brute => e.outcome == Outcome::Failure && e.user.is_some(),
        WindowRule::Spray => e.outcome == Outcome::Failure && e.source_ip.is_some(),
        WindowRule::Lateral => e.outcome == Outcome::Success && e.severity.level() >= 3 && e.user.is_some()
            && e.host.is_some(),
    }
}

fn key_exec(rule: WindowRule, e: &EventRecord) -> (r: Vec<char>)
    requires
        admits(rule, *e),
    ensures
        r@ == rule_key(rule, *e),
{
    match rule {
        WindowRule::Spray => match &e.source_ip {
            Some(ip) => chars_of(ip.as_str()),
            None => Vec::new(),
        },
        _ => match &e.user {
            Some(u) => chars_of(u.as_str()),
            None => Vec::new(),
        },
    }
}

/// Whether a list of character vectors holds `x`.
fn holds(list: &Vec<Vec<char>>, x: &[char]) -> (r: bool)
    ensures
        r == views(list@).contains(x@),
{
    let mut k: usize = 0;
    while k < list.len()
        invariant
            k <= list.len(),
            forall|q: int| 0 <= q < k ==> views(list@)[q] != x@,
        decreases list.len() - k,
    {
        if seq_eq(list[k].as_slice(), x) {
            assert(views(list@)[k as int] == x@);
            return true;
        }
        k += 1;
    }
    false
}

/// The accounts (spray) or hosts (lateral) the window's events name.
fn named_exec(rule: WindowRule, ev: &Vec<EventRecord>, win: &VecDeque<usize>) -> (r: Vec<Vec<char>>)
    requires
        forall|k: int| 0 <= k < win@.len() ==> (#[trigger] win@[k]) < ev.len(),
    ensures
        views(r@) == named(rule, ev@, win@.map_values(|x: usize| x as int)),
{
    let ghost w = win@.map_values(|x: usize| x as int);
    let ghost vals = match rule {
        WindowRule::Spray => w.map_values(|j: int| ev@[j].user),
        _ => w.map_values(|j: int| ev@[j].host),
    };
    let mut r: Vec<Vec<char>> = Vec::new();
    let mut k: usize = 0;
    while k < win.len()
        invariant
            k <= win@.len(),
            w == win@.map_values(|x: usize| x as int),
            forall|q: int| 0 <= q < win@.len() ==> (#[trigger] win@[q]) < ev.len(),
            vals == (match rule {
                WindowRule::Spray => w.map_values(|j: int| ev@[j].user),
                _ => w.map_values(|j: int| ev@[j].host),
            }),
            views(r@) == distinct(present(vals.take(k as int))),
        decreases win@.len() - k,
    {
        let j = win[k];
        let value = match rule {
            WindowRule::Spray => &ev[j].user,
            _ => &ev[j].host,
        };
        let ghost before = vals.take(k as int);
        assert(vals.take(k + 1) =~= before.push(vals[k as int]));
        assert(before.push(vals[k as int]).drop_last() =~= before);
        match value {
            Some(v) => {
                let vc = chars_of(v.as_str());
                assert(present(vals.take(k + 1)) =~= present(before).push(v@));
                assert(present(before).push(v@).drop_last() =~= present(before));
                if !holds(&r, vc.as_slice()) {
                    let ghost rv = views(r@);
                    r.push(vc);
                    assert(views(r@) =~= rv.push(v@));
                }
            },
            None => {
                assert(present(vals.take(k + 1)) =~= present(before));
            },
        }
        k += 1;
    }
    assert(vals.take(win@.len() as int) =~= vals);
    r
}

/// The text with every `.` turned into `-`.
fn dashed_exec(s: &[char]) -> (r: Vec<char>)
    ensures
        r@ == dashed(s@),
{
    let mut r: Vec<char> = Vec::new();
    let mut k: usize = 0;
    while k < s.len()
        invariant
            k <= s.len(),
            r@ == dashed(s@.take(k as int)),
        decreases s.len() - k,
    {
        let c = s[k];
        r.push(if c == '.' { '-' } else { c });
        assert(dashed(s@.take(k + 1)) =~= dashed(s@.take(k as int)).push(if c == '.' { '-' } else { c }));
        k += 1;
    }
    assert(s@.take(s.len() as int) =~= s@);
    r
}

/// `prefix` followed by the characters.
fn labelled(prefix: &str, cs: &[char]) -> (r: String)
    ensures
        r@ == prefix@ + cs@,
{
    let mut r = String::from_str(prefix);
    let rest = string_of(cs);
    push_str(&mut r, rest.as_str());
    r
}

/// The ids of the window's events.
fn window_ids(ev: &Vec<EventRecord>, win: &VecDeque<usize>) -> (r: Vec<String>)
    requires
        forall|k: int| 0 <= k < win@.len() ==> (#[trigger] win@[k]) < ev.len(),
    ensures
        strings(r@) == win@.map_values(|x: usize| x as int).map_values(|j: int| ev@[j].id@),
{
    let mut r: Vec<String> = Vec::new();
    let mut k: usize = 0;
    while k < win.len()
        invariant
            k <= win@.len(),
            forall|q: int| 0 <= q < win@.len() ==> (#[trigger] win@[q]) < ev.len(),
            r.len() == k,
            forall|q: int| 0 <= q < k ==> (#[trigger] r@[q])@ == ev@[win@[q] as int].id@,
        decreases win@.len() - k,
    {
        r.push(ev[win[k]].id.clone());
        k += 1;
    }
    assert(strings(r@) =~= win@.map_values(|x: usize| x as int).map_values(|j: int| ev@[j].id@));
    r
}

/// The detection a rule reports when event `i` fires it with window `win`.
fn rule_detection_exec(
    rule: WindowRule,
    ev: &Vec<EventRecord>,
    cfg: &DetectorConfig,
    i: usize,
    win: &VecDeque<usize>,
) -> (r: Detection)
    requires
        i < ev.len(),
        admits(rule, ev@[i as int]),
        win@.len() > 0,
        forall|k: int| 0 <= k < win@.len() ==> (#[trigger] win@[k]) < ev.len(),
    ensures
        r.view_of() == rule_detection(rule, ev@, *cfg, i as int, win@.map_values(|x: usize| x as int)),
{
    let ghost w = win@.map_values(|x: usize| x as int);
    let e = &ev[i];
    let key = key_exec(rule, e);
    let names = named_exec(rule, ev, win);
    let ids = window_ids(ev, win);
    let started_at = ev[win[0]].timestamp;
    let mut wtext = String::new();
    push_dec_i64(&mut wtext, cfg.window_seconds);
    let mut secs = String::new();
    push_dec_i64(&mut secs, e.timestamp.secs);
    let mut entities: Vec<String> = Vec::new();
    let (id_prefix, first_prefix, name_prefix, kind): (&str, &str, &str, DetectionKind) = match rule {
        WindowRule::Brute => ("brute-force-", "user:", "", DetectionKind::BruteForce),
        WindowRule::Spray => ("password-spray-", "ip:", "user:", DetectionKind::PasswordSpray),
        WindowRule::Lateral => ("lateral-", "user:", "host:", DetectionKind::LateralMovement),
    };
    let id_key = match rule {
        WindowRule::Spray => dashed_exec(key.as_slice()),
        _ => crate::text::copy_chars(key.as_slice()),
    };
    let mut id = labelled(id_prefix, id_key.as_slice());
    push_str(&mut id, "-");
    push_str(&mut id, secs.as_str());
    entities.push(labelled(first_prefix, key.as_slice()));
    let mut k: usize = 0;
    match rule {
        WindowRule::Brute => {},
        _ => {
            while k < names.len()
                invariant
                    k <= names.len(),
                    entities.len() == k + 1,
                    strings(entities@)[0] == first_prefix@ + key@,
                    forall|q: int| 1 <= q <= k ==> (#[trigger] entities@[q])@ == name_prefix@ + names@[q - 1]@,
                decreases names.len() - k,
            {
                entities.push(labelled(name_prefix, names[k].as_slice()));
                k += 1;
            }
            assert(strings(entities@) =~= seq![first_prefix@ + key@] + views(names@).map_values(|u: Seq<char>| name_prefix@ + u));
        },
    }
    let mut count = String::new();
    let n = match rule {
        WindowRule::Brute => win.len(),
        _ => names.len(),
    };
    push_dec(&mut count, n as u64);
    let mut explanation = String::new();
    let mut evidence: Vec<(String, String)> = Vec::new();
    match rule {
        WindowRule::Brute => {
            push_str(&mut explanation, count.as_str());
            push_str(&mut explanation, " failed authentications for one account inside a ");
            push_str(&mut explanation, wtext.as_str());
            push_str(&mut explanation, " second sliding window.");
            evidence.push((String::from_str("failures"), count.clone()));
            evidence.push((String::from_str("window_seconds"), wtext.clone()));
        },
        WindowRule::Spray => {
            push_str(&mut explanation, "One source IP failed against ");
            push_str(&mut explanation, count.as_str());
            push_str(&mut explanation, " distinct accounts inside a ");
            push_str(&mut explanation, wtext.as_str());
            push_str(&mut explanation, " second sliding window.");
            evidence.push((String::from_str("distinct_accounts"), count.clone()));
            evidence.push((String::from_str("window_seconds"), wtext.clone()));
        },
        WindowRule::Lateral => {
            push_str(&mut explanation, "One identity authenticated successfully on ");
            push_str(&mut explanation, count.as_str());
            push_str(&mut explanation, " distinct hosts inside the correlation window.");
            evidence.push((String::from_str("distinct_hosts"), count.clone()));
        },
    }
    let r = Detection {
        id,
        kind,
        severity: Severity::High,
        started_at,
        ended_at: e.timestamp,
        entities,
        event_ids: ids,
        explanation,
        evidence,
    };
    proof {
        let spec = rule_detection(rule, ev@, *cfg, i as int, w);
        assert(w[0] == win@[0] as int);
        match rule {
            WindowRule::Brute => {
                assert(strings(r.entities@) =~= spec.entities);
            },
            _ => {
                assert(strings(r.entities@) =~= spec.entities);
            },
        }
        assert(string_pairs(r.evidence@) =~= spec.evidence);
        assert(w.len() == win@.len());
    }
    r
}

/// Position of `x` in a list of character vectors.
fn position_of(list: &Vec<Vec<char>>, x: &[char]) -> (r: Option<usize>)
    ensures
        match r {
            Some(q) => q < list.len() && list@[q as int]@ == x@,
            None => !views(list@).contains(x@),
        },
{
    let mut k: usize = 0;
    while k < list.len()
        invariant
            k <= list.len(),
            forall|q: int| 0 <= q < k ==> views(list@)[q] != x@,
        decreases list.len() - k,
    {
        if seq_eq(list[k].as_slice(), x) {
            return Some(k);
        }
        k += 1;
    }
    None
}

/// The rule's events are in `chrono`'s range and their windows can be
/// measured back from them.
pub open spec fn rule_ready(rule: WindowRule, ev: Seq<EventRecord>, cfg: DetectorConfig) -> bool {
    forall|i: int|
        0 <= i < ev.len() && #[trigger] admits(rule, ev[i]) ==> {
            &&& ev[i].timestamp.wf()
            &&& i64::MIN <= span(rule, cfg) <= i64::MAX
            &&& ev[i].timestamp.can_shift_back(span(rule, cfg))
        }
}

/// The exec state of a rule agrees with its specification.
pub open spec fn rule_agrees(
    rule: WindowRule,
    ev: Seq<EventRecord>,
    cfg: DetectorConfig,
    st: RuleState,
    keys: Seq<Vec<char>>,
    wins: Seq<VecDeque<usize>>,
    detected: Seq<Vec<char>>,
    results: Seq<Detection>,
) -> bool {
    &&& keys.len() == wins.len()
    &&& forall|a: int, b: int| 0 <= a < b < keys.len() ==> keys[a]@ != keys[b]@
    &&& forall|key: Seq<char>| #[trigger] st.windows.contains_key(key) <==> views(keys).contains(key)
    &&& forall|q: int|
        0 <= q < keys.len() ==> st.windows[(#[trigger] keys[q])@] == wins[q]@.map_values(|x: usize| x as int)
    &&& forall|q: int, k: int| 0 <= q < wins.len() && 0 <= k < wins[q]@.len() ==> (#[trigger] wins[q]@[k]) < ev.len()
    &&& forall|x: Seq<char>| #[trigger] st.detected.contains(x) <==> views(detected).contains(x)
    &&& results.len() == st.hits.len()
    &&& forall|k: int|
        0 <= k < results.len() ==> (#[trigger] results[k]).view_of() == rule_detection(
            rule,
            ev,
            cfg,
            st.hits[k].0,
            st.hits[k].1,
        )
}

/// Runs one rule over time-ordered events.
fn run_rule(rule: WindowRule, ev: &Vec<EventRecord>, cfg: &DetectorConfig) -> (r: Vec<Detection>)
    requires
        rule_ready(rule, ev@, *cfg),
    ensures
        r.len() == rule_state(rule, ev@, *cfg, ev.len() as int).hits.len(),
        forall|k: int|
            0 <= k < r.len() ==> (#[trigger] r@[k]).view_of() == rule_detection(
                rule,
                ev@,
                *cfg,
                rule_state(rule, ev@, *cfg, ev.len() as int).hits[k].0,
                rule_state(rule, ev@, *cfg, ev.len() as int).hits[k].1,
            ),
{
    let mut keys: Vec<Vec<char>> = Vec::new();
    let mut wins: Vec<VecDeque<usize>> = Vec::new();
    let mut detected: Vec<Vec<char>> = Vec::new();
    let mut results: Vec<Detection> = Vec::new();
    let mut i: usize = 0;
    proof {
        let st = rule_state(rule, ev@, *cfg, 0);
        assert(views(keys@) =~= Seq::<Seq<char>>::empty());
        assert(views(detected@) =~= Seq::<Seq<char>>::empty());
    }
    while i < ev.len()
        invariant
            i <= ev.len(),
            rule_ready(rule, ev@, *cfg),
            rule_agrees(rule, ev@, *cfg, rule_state(rule, ev@, *cfg, i as int), keys@, wins@, detected@, results@),
        decreases ev.len() - i,
    {
        let ghost st = rule_state(rule, ev@, *cfg, i as int);
        let ghost st1 = rule_state(rule, ev@, *cfg, i + 1);
        assert(st1 == rule_step(rule, ev@, *cfg, st, i as int));
        let ghost keys0 = keys@;
        let ghost wins0 = wins@;
        let ghost det0 = detected@;
        let ghost res0 = results@;
        let e = &ev[i];
        if admits_exec(rule, e) {
            let key = key_exec(rule, e);
            let idx = match position_of(&keys, key.as_slice()) {
                Some(q) => {
                    assert(views(keys0)[q as int] == key@);
                    q
                },
                None => {
                    let ghost kv = views(keys@);
                    keys.push(crate::text::copy_chars(key.as_slice()));
                    wins.push(VecDeque::new());
                    assert(views(keys@) =~= kv.push(key@));
                    assert(wins@[keys.len() - 1]@ =~= Seq::<usize>::empty());
                    keys.len() - 1
                },
            };
            assert(views(keys@)[idx as int] == key@);
            assert(idx < keys0.len() ==> views(keys0).contains(key@));
            assert(idx >= keys0.len() ==> wins@[idx as int]@.len() == 0);
            let span_secs = match rule {
                WindowRule::Lateral => cfg.window_seconds * 3,
                _ => cfg.window_seconds,
            };
            let cutoff = e.timestamp.minus_seconds(span_secs);
            let ghost key_v = rule_key(rule, ev@[i as int]);
            let ghost win_spec0 = if st.windows.contains_key(key_v) { st.windows[key_v] } else { Seq::<int>::empty() };
            assert(wins@[idx as int]@.map_values(|x: usize| x as int) == win_spec0) by {
                if st.windows.contains_key(key_v) {
                    assert(views(keys0).contains(key_v));
                    let q = choose|q: int| 0 <= q < keys0.len() && views(keys0)[q] == key_v;
                    assert(keys0[q]@ == key_v);
                    assert(q == idx);
                } else {
                    assert(!views(keys0).contains(key_v));
                    assert(idx >= keys0.len());
                    assert(wins@[idx as int]@.map_values(|x: usize| x as int) =~= Seq::<int>::empty());
                }
            }
            let ghost keys1 = keys@;
            let ghost wins1 = wins@;
            assert(cutoff == cutoff_of(ev@[i as int].timestamp, span(rule, *cfg)));
            evict(ev, &mut wins[idx], &cutoff);
            let ghost ev_win = wins@[idx as int]@;
            wins[idx].push_back(i);
            let ghost win_spec = evicted(ev@, win_spec0, cutoff_of(ev@[i as int].timestamp, span(rule, *cfg))).push(i as int);
            assert(wins@[idx as int]@.map_values(|x: usize| x as int) =~= win_spec) by {
                assert(wins@[idx as int]@ == ev_win.push(i));
            }
            let m = match rule {
                WindowRule::Brute => wins[idx].len(),
                _ => named_exec(rule, ev, &wins[idx]).len(),
            };
            let thr = match rule {
                WindowRule::Brute => cfg.brute_force_failures,
                WindowRule::Spray => cfg.spray_accounts,
                WindowRule::Lateral => cfg.lateral_hosts,
            };
            assert(m == measure(rule, ev@, win_spec));
            assert(thr == threshold(rule, *cfg));
            if m >= thr && !holds(&detected, key.as_slice()) {
                let d = rule_detection_exec(rule, ev, cfg, i, &wins[idx]);
                let ghost dv = views(detected@);
                detected.push(key);
                assert(views(detected@) =~= dv.push(key@));
                results.push(d);
                proof {
                    assert forall|x: Seq<char>| #[trigger] st1.detected.contains(x) <==> views(detected@).contains(x) by {
                        if views(detected@).contains(x) && x != key@ {
                            let q = choose|q: int| 0 <= q < detected@.len() && views(detected@)[q] == x;
                            assert(dv[q] == x);
                        }
                        if st.detected.contains(x) {
                            let q = choose|q: int| 0 <= q < dv.len() && dv[q] == x;
                            assert(views(detected@)[q] == x);
                        }
                        if x == key@ {
                            assert(views(detected@)[dv.len() as int] == x);
                        }
                    }
                    assert(st1.hits == st.hits.push((i as int, win_spec)));
                    assert forall|k: int|
                        0 <= k < results.len() implies (#[trigger] results@[k]).view_of() == rule_detection(
                            rule,
                            ev@,
                            *cfg,
                            st1.hits[k].0,
                            st1.hits[k].1,
                        ) by {
                        if k < res0.len() {
                            assert(results@[k] == res0[k]);
                        }
                    }
                }
            }
            proof {
                assert forall|q: int|
                    0 <= q < keys@.len() implies st1.windows[(#[trigger] keys@[q])@] == wins@[q]@.map_values(|x: usize| x as int) by {
                    if q != idx {
                        if idx >= keys0.len() {
                            assert(views(keys0)[q] == keys0[q]@);
                            assert(keys0[q]@ != key@);
                        }
                        assert(keys@[q]@ != keys@[idx as int]@);
                        assert(wins@[q] == wins1[q]);
                        assert(keys@[q] == keys1[q]);
                        if q < keys0.len() {
                            assert(keys0[q] == keys@[q]);
                            assert(wins0[q] == wins@[q]);
                        }
                    }
                }
                assert forall|key: Seq<char>| #[trigger] st1.windows.contains_key(key) <==> views(keys@).contains(key) by {
                    if views(keys@).contains(key) {
                        let q = choose|q: int| 0 <= q < keys@.len() && views(keys@)[q] == key;
                        if q != idx {
                            assert(views(keys0)[q] == key);
                        }
                    }
                    if st.windows.contains_key(key) {
                        let q = choose|q: int| 0 <= q < keys0.len() && views(keys0)[q] == key;
                        assert(views(keys@)[q] == key);
                    }
                }
                assert forall|q: int, k: int| 0 <= q < wins@.len() && 0 <= k < wins@[q]@.len() implies (#[trigger] wins@[q]@[k]) < ev.len() by {
                    if q != idx && q < wins0.len() {
                        assert(wins@[q] == wins0[q]);
                    }
                }
                assert forall|a: int, b: int| 0 <= a < b < keys@.len() implies keys@[a]@ != keys@[b]@ by {
                    if b >= keys0.len() {
                        assert(views(keys0)[a] == keys@[a]@);
                    }
                }
            }
        } else {
            assert(st1 == st);
        }
        i += 1;
    }
    results
}

/// The identity a failure-then-success window follows: `user|ip`.
pub open spec fn identity_key(e: EventRecord) -> Seq<char> {
    e.user->Some_0@ + "|"@ + e.source_ip->Some_0@
}

/// Failure-then-success progress: windows of recent failures per
/// identity, and the firings so far (event position and the failures).
pub struct FollowState {
    pub windows: Map<Seq<char>, Seq<int>>,
    pub hits: Seq<(int, Seq<int>)>,
}

/// The identity's failures still inside the doubled window at event `i`.
pub open spec fn follow_window(ev: Seq<EventRecord>, cfg: DetectorConfig, st: FollowState, i: int) -> Seq<int> {
    let e = ev[i];
    let key = identity_key(e);
    let win0 = if st.windows.contains_key(key) {
        st.windows[key]
    } else {
        Seq::empty()
    };
    evicted(ev, win0, cutoff_of(e.timestamp, cfg.window_seconds * 2))
}

/// The state after event `i`: a failure joins its identity's window; a
/// success after at least the brute-force threshold of failures fires and
/// empties the window.
pub open spec fn follow_step(ev: Seq<EventRecord>, cfg: DetectorConfig, st: FollowState, i: int) -> FollowState {
    let e = ev[i];
    if e.user is None || e.source_ip is None {
        st
    } else {
        let key = identity_key(e);
        let win = follow_window(ev, cfg, st, i);
        if e.outcome == Outcome::Failure {
            FollowState { windows: st.windows.insert(key, win.push(i)), hits: st.hits }
        } else if e.outcome == Outcome::Success && win.len() >= cfg.brute_force_failures {
            FollowState { windows: st.windows.insert(key, Seq::empty()), hits: st.hits.push((i, win)) }
        } else {
            FollowState { windows: st.windows.insert(key, win), hits: st.hits }
        }
    }
}

pub open spec fn follow_state(ev: Seq<EventRecord>, cfg: DetectorConfig, k: int) -> FollowState
    decreases k,
{
    if k <= 0 {
        FollowState { windows: Map::empty(), hits: Seq::empty() }
    } else {
        follow_step(ev, cfg, follow_state(ev, cfg, k - 1), k - 1)
    }
}

/// The rule would fire on an empty window (a threshold of zero), where
/// the window has no first event to start the detection.
pub open spec fn follow_fires_empty(ev: Seq<EventRecord>, cfg: DetectorConfig, i: int) -> bool {
    let e = ev[i];
    &&& e.user is Some
    &&& e.source_ip is Some
    &&& e.outcome == Outcome::Success
    &&& cfg.brute_force_failures == 0
    &&& follow_window(ev, cfg, follow_state(ev, cfg, i), i).len() == 0
}

/// The rule's events are in range, their windows measurable, and it never
/// fires on an empty window.
pub open spec fn follow_ready(ev: Seq<EventRecord>, cfg: DetectorConfig) -> bool {
    forall|i: int|
        0 <= i < ev.len() && (#[trigger] ev[i]).user is Some && ev[i].source_ip is Some ==> {
            &&& ev[i].timestamp.wf()
            &&& i64::MIN <= cfg.window_seconds * 2 <= i64::MAX
            &&& ev[i].timestamp.can_shift_back(cfg.window_seconds * 2)
            &&& !follow_fires_empty(ev, cfg, i)
        }
}

/// The detection reported when success `i` follows the failures `win`.
pub open spec fn follow_detection(ev: Seq<EventRecord>, i: int, win: Seq<int>) -> DetectionView {
    let e = ev[i];
    let user = e.user->Some_0@;
    let ip = e.source_ip->Some_0@;
    DetectionView {
        id: "failure-success-"@ + user + "-"@ + dec_int(e.timestamp.secs as int),
        kind: DetectionKind::FailureThenSuccess,
        severity: Severity::Critical,
        started_at: ev[win[0]].timestamp,
        ended_at: e.timestamp,
        entities: seq!["user:"@ + user, "ip:"@ + ip],
        event_ids: win.map_values(|j: int| ev[j].id@).push(e.id@),
        explanation: "A successful authentication followed "@ + dec(win.len())
            + " recent failures for the same identity."@,
        evidence: seq![("preceding_failures"@, dec(win.len()))],
    }
}

/// The exec state agrees with the specification.
pub open spec fn follow_agrees(
    ev: Seq<EventRecord>,
    st: FollowState,
    keys: Seq<Vec<char>>,
    wins: Seq<VecDeque<usize>>,
    results: Seq<Detection>,
) -> bool {
    &&& keys.len() == wins.len()
    &&& forall|a: int, b: int| 0 <= a < b < keys.len() ==> keys[a]@ != keys[b]@
    &&& forall|key: Seq<char>| #[trigger] st.windows.contains_key(key) <==> views(keys).contains(key)
    &&& forall|q: int|
        0 <= q < keys.len() ==> st.windows[(#[trigger] keys[q])@] == wins[q]@.map_values(|x: usize| x as int)
    &&& forall|q: int, k: int| 0 <= q < wins.len() && 0 <= k < wins[q]@.len() ==> (#[trigger] wins[q]@[k]) < ev.len()
    &&& results.len() == st.hits.len()
    &&& forall|k: int|
        0 <= k < results.len() ==> (#[trigger] results[k]).view_of() == follow_detection(ev, st.hits[k].0, st.hits[k].1)
}

fn follow_detection_exec(ev: &Vec<EventRecord>, i: usize, win: &VecDeque<usize>) -> (r: Detection)
    requires
        i < ev.len(),
        ev@[i as int].user is Some,
        ev@[i as int].source_ip is Some,
        win@.len() > 0,
        forall|k: int| 0 <= k < win@.len() ==> (#[trigger] win@[k]) < ev.len(),
    ensures
        r.view_of() == follow_detection(ev@, i as int, win@.map_values(|x: usize| x as int)),
{
    let ghost w = win@.map_values(|x: usize| x as int);
    let e = &ev[i];
    let user = match &e.user {
        Some(u) => chars_of(u.as_str()),
        None => Vec::new(),
    };
    let ip = match &e.source_ip {
        Some(v) => chars_of(v.as_str()),
        None => Vec::new(),
    };
    let mut id = labelled("failure-success-", user.as_slice());
    push_str(&mut id, "-");
    push_dec_i64(&mut id, e.timestamp.secs);
    let mut entities: Vec<String> = Vec::new();
    entities.push(labelled("user:", user.as_slice()));
    entities.push(labelled("ip:", ip.as_slice()));
    let mut event_ids = window_ids(ev, win);
    let ghost ids0 = strings(event_ids@);
    event_ids.push(e.id.clone());
    let mut count = String::new();
    push_dec(&mut count, win.len() as u64);
    let mut explanation = String::from_str("A successful authentication followed ");
    push_str(&mut explanation, count.as_str());
    push_str(&mut explanation, " recent failures for the same identity.");
    let mut evidence: Vec<(String, String)> = Vec::new();
    evidence.push((String::from_str("preceding_failures"), count));
    let r = Detection {
        id,
        kind: DetectionKind::FailureThenSuccess,
        severity: Severity::Critical,
        started_at: ev[win[0]].timestamp,
        ended_at: e.timestamp,
        entities,
        event_ids,
        explanation,
        evidence,
    };
    proof {
        let spec = follow_detection(ev@, i as int, w);
        assert(w[0] == win@[0] as int);
        assert(strings(r.entities@) =~= spec.entities);
        assert(strings(r.event_ids@) =~= ids0.push(e.id@));
        assert(string_pairs(r.evidence@) =~= spec.evidence);
        assert(w.len() == win@.len());
    }
    r
}

/// Runs the failure-then-success rule over time-ordered events.
fn run_follow(ev: &Vec<EventRecord>, cfg: &DetectorConfig) -> (r: Vec<Detection>)
    requires
        follow_ready(ev@, *cfg),
    ensures
        r.len() == follow_state(ev@, *cfg, ev.len() as int).hits.len(),
        forall|k: int|
            0 <= k < r.len() ==> (#[trigger] r@[k]).view_of() == follow_detection(
                ev@,
                follow_state(ev@, *cfg, ev.len() as int).hits[k].0,
                follow_state(ev@, *cfg, ev.len() as int).hits[k].1,
            ),
{
    let mut keys: Vec<Vec<char>> = Vec::new();
    let mut wins: Vec<VecDeque<usize>> = Vec::new();
    let mut results: Vec<Detection> = Vec::new();
    let mut i: usize = 0;
    proof {
        assert(views(keys@) =~= Seq::<Seq<char>>::empty());
    }
    while i < ev.len()
        invariant
            i <= ev.len(),
            follow_ready(ev@, *cfg),
            follow_agrees(ev@, follow_state(ev@, *cfg, i as int), keys@, wins@, results@),
        decreases ev.len() - i,
    {
        let ghost st = follow_state(ev@, *cfg, i as int);
        let ghost st1 = follow_state(ev@, *cfg, i + 1);
        assert(st1 == follow_step(ev@, *cfg, st, i as int));
        let ghost keys0 = keys@;
        let ghost wins0 = wins@;
        let ghost res0 = results@;
        let e = &ev[i];
        if e.user.is_some() && e.source_ip.is_some() {
            let user = match &e.user {
                Some(u) => chars_of(u.as_str()),
                None => Vec::new(),
            };
            let ip = match &e.source_ip {
                Some(v) => chars_of(v.as_str()),
                None => Vec::new(),
            };
            let mut key = crate::text::copy_chars(user.as_slice());
            crate::text::extend_chars(&mut key, chars_of("|").as_slice());
            crate::text::extend_chars(&mut key, ip.as_slice());
            let ghost key_v = identity_key(ev@[i as int]);
            assert(key@ == key_v);
            let idx = match position_of(&keys, key.as_slice()) {
                Some(q) => {
                    assert(views(keys0)[q as int] == key@);
                    q
                },
                None => {
                    let ghost kv = views(keys@);
                    keys.push(crate::text::copy_chars(key.as_slice()));
                    wins.push(VecDeque::new());
                    assert(views(keys@) =~= kv.push(key@));
                    assert(wins@[keys.len() - 1]@ =~= Seq::<usize>::empty());
                    keys.len() - 1
                },
            };
            assert(views(keys@)[idx as int] == key@);
            assert(idx < keys0.len() ==> views(keys0).contains(key@));
            assert(idx >= keys0.len() ==> wins@[idx as int]@.len() == 0);
            let ghost win_spec0 = if st.windows.contains_key(key_v) { st.windows[key_v] } else { Seq::<int>::empty() };
            assert(wins@[idx as int]@.map_values(|x: usize| x as int) == win_spec0) by {
                if st.windows.contains_key(key_v) {
                    assert(views(keys0).contains(key_v));
                    let q = choose|q: int| 0 <= q < keys0.len() && views(keys0)[q] == key_v;
                    assert(keys0[q]@ == key_v);
                    assert(q == idx);
                } else {
                    assert(!views(keys0).contains(key_v));
                    assert(idx >= keys0.len());
                    assert(wins@[idx as int]@.map_values(|x: usize| x as int) =~= Seq::<int>::empty());
                }
            }
            let ghost keys1 = keys@;
            let ghost wins1 = wins@;
            let cutoff = e.timestamp.minus_seconds(cfg.window_seconds * 2);
            evict(ev, &mut wins[idx], &cutoff);
            let ghost win_spec = follow_window(ev@, *cfg, st, i as int);
            assert(wins@[idx as int]@.map_values(|x: usize| x as int) == win_spec);
            let ghost ev_win = wins@[idx as int]@;
            let ghost new_win: Seq<int> = if e.outcome == Outcome::Failure {
                win_spec.push(i as int)
            } else if e.outcome == Outcome::Success && win_spec.len() >= cfg.brute_force_failures {
                Seq::empty()
            } else {
                win_spec
            };
            match e.outcome {
                Outcome::Failure => {
                    wins[idx].push_back(i);
                    assert(wins@[idx as int]@ == ev_win.push(i));
                    assert(wins@[idx as int]@.map_values(|x: usize| x as int) =~= new_win);
                },
                Outcome::Success => {
                    if wins[idx].len() >= cfg.brute_force_failures {
                        assert(!follow_fires_empty(ev@, *cfg, i as int));
                        let d = follow_detection_exec(ev, i, &wins[idx]);
                        wins[idx].clear();
                        assert(wins@[idx as int]@.map_values(|x: usize| x as int) =~= new_win);
                        results.push(d);
                        proof {
                            assert(st1.hits == st.hits.push((i as int, win_spec)));
                            assert forall|k: int|
                                0 <= k < results.len() implies (#[trigger] results@[k]).view_of() == follow_detection(
                                    ev@,
                                    st1.hits[k].0,
                                    st1.hits[k].1,
                                ) by {
                                if k < res0.len() {
                                    assert(results@[k] == res0[k]);
                                }
                            }
                        }
                    }
                },
                Outcome::Unknown => {},
            }
            proof {
                assert(st1.windows == st.windows.insert(key_v, new_win));
                assert forall|q: int|
                    0 <= q < keys@.len() implies st1.windows[(#[trigger] keys@[q])@] == wins@[q]@.map_values(|x: usize| x as int) by {
                    if q != idx {
                        if idx >= keys0.len() {
                            assert(views(keys0)[q] == keys0[q]@);
                            assert(keys0[q]@ != key@);
                        }
                        assert(keys@[q]@ != keys@[idx as int]@);
                        assert(wins@[q] == wins1[q]);
                        assert(keys@[q] == keys1[q]);
                        if q < keys0.len() {
                            assert(keys0[q] == keys@[q]);
                            assert(wins0[q] == wins@[q]);
                        }
                    }
                }
                assert forall|key: Seq<char>| #[trigger] st1.windows.contains_key(key) <==> views(keys@).contains(key) by {
                    if views(keys@).contains(key) {
                        let q = choose|q: int| 0 <= q < keys@.len() && views(keys@)[q] == key;
                        if q != idx {
                            assert(views(keys0)[q] == key);
                        }
                    }
                    if st.windows.contains_key(key) {
                        let q = choose|q: int| 0 <= q < keys0.len() && views(keys0)[q] == key;
                        assert(views(keys@)[q] == key);
                    }
                }
                assert forall|q: int, k: int| 0 <= q < wins@.len() && 0 <= k < wins@[q]@.len() implies (#[trigger] wins@[q]@[k]) < ev.len() by {
                    if q != idx && q < wins0.len() {
                        assert(wins@[q] == wins0[q]);
                    }
                }
                assert forall|a: int, b: int| 0 <= a < b < keys@.len() implies keys@[a]@ != keys@[b]@ by {
                    if b >= keys0.len() {
                        assert(views(keys0)[a] == keys@[a]@);
                    }
                }
            }
        } else {
            assert(st1 == st);
        }
        i += 1;
    }
    results
}

/// `out` is `input` ordered by time, then id, with ties kept in input
/// order; each record equals its source record field by field.
pub open spec fn time_ordered(input: Seq<EventRecord>, out: Seq<EventRecord>) -> bool {
    exists|order: Seq<usize>|
        {
            &&& order.len() == input.len()
            &&& out.len() == input.len()
            &&& forall|k: int| 0 <= k < order.len() ==> (#[trigger] order[k] as int) < input.len()
            &&& forall|a: int, b: int|
                0 <= a < b < order.len() ==> {
                    ||| event_before(input[#[trigger] order[a] as int], input[#[trigger] order[b] as int])
                    ||| (!event_before(input[order[b] as int], input[order[a] as int]) && order[a] < order[b])
                }
            &&& forall|k: int| 0 <= k < out.len() ==> (#[trigger] out[k]).same_as(input[order[k] as int])
        }
}

/// What a rule reports over time-ordered events, in order of firing.
pub open spec fn rule_views(rule: WindowRule, ev: Seq<EventRecord>, cfg: DetectorConfig) -> Seq<DetectionView> {
    rule_state(rule, ev, cfg, ev.len() as int).hits.map_values(|h: (int, Seq<int>)| rule_detection(rule, ev, cfg, h.0, h.1))
}

/// What the failure-then-success rule reports, in order of firing.
pub open spec fn follow_views(ev: Seq<EventRecord>, cfg: DetectorConfig) -> Seq<DetectionView> {
    follow_state(ev, cfg, ev.len() as int).hits.map_values(|h: (int, Seq<int>)| follow_detection(ev, h.0, h.1))
}

/// All rules' reports: brute force, spraying, failure then success,
/// lateral movement.
pub open spec fn all_views(ev: Seq<EventRecord>, cfg: DetectorConfig) -> Seq<DetectionView> {
    rule_views(WindowRule::Brute, ev, cfg) + rule_views(WindowRule::Spray, ev, cfg) + follow_views(ev, cfg)
        + rule_views(WindowRule::Lateral, ev, cfg)
}

/// Detection `a` starts before `b`, or at the same time with a smaller id.
pub open spec fn starts_before(a: DetectionView, b: DetectionView) -> bool {
    a.started_at.lt(b.started_at) || (a.started_at == b.started_at && text_lt(a.id, b.id))
}

/// `r` is `all` ordered by start and id, ties kept in order.
pub open spec fn sorted_views(all: Seq<DetectionView>, r: Seq<DetectionView>) -> bool {
    exists|order: Seq<usize>|
        {
            &&& order.len() == all.len()
            &&& r.len() == all.len()
            &&& forall|k: int| 0 <= k < order.len() ==> (#[trigger] order[k] as int) < all.len()
            &&& forall|a: int, b: int|
                0 <= a < b < order.len() ==> {
                    ||| starts_before(all[#[trigger] order[a] as int], all[#[trigger] order[b] as int])
                    ||| (!starts_before(all[order[b] as int], all[order[a] as int]) && order[a] < order[b])
                }
            &&& forall|k: int| 0 <= k < r.len() ==> #[trigger] r[k] == all[order[k] as int]
        }
}

pub open spec fn det_views(r: Seq<Detection>) -> Seq<DetectionView> {
    r.map_values(|d: Detection| d.view_of())
}

proof fn lemma_time_ordered(events: Seq<EventRecord>, copies: Seq<EventRecord>, out: Seq<EventRecord>)
    requires
        copies.len() == events.len(),
        forall|k: int| 0 <= k < copies.len() ==> (#[trigger] copies[k]).same_as(events[k]),
        stably_sorted(copies, out),
    ensures
        time_ordered(events, out),
{
    let order = choose|order: Seq<usize>|
        {
            &&& order.len() == copies.len()
            &&& out.len() == copies.len()
            &&& forall|k: int| 0 <= k < order.len() ==> (#[trigger] order[k] as int) < copies.len()
            &&& forall|a: int, b: int|
                0 <= a < b < order.len() ==> {
                    ||| event_before(copies[#[trigger] order[a] as int], copies[#[trigger] order[b] as int])
                    ||| (!event_before(copies[order[b] as int], copies[order[a] as int]) && order[a] < order[b])
                }
            &&& forall|k: int| 0 <= k < out.len() ==> #[trigger] out[k] == copies[order[k] as int]
        };
    assert forall|a: int, b: int|
        0 <= a < b < order.len() implies {
            ||| event_before(events[#[trigger] order[a] as int], events[#[trigger] order[b] as int])
            ||| (!event_before(events[order[b] as int], events[order[a] as int]) && order[a] < order[b])
        } by {
        let x = order[a] as int;
        let y = order[b] as int;
        assert(copies[x].same_as(events[x]));
        assert(copies[y].same_as(events[y]));
    }
    assert forall|k: int| 0 <= k < out.len() implies (#[trigger] out[k]).same_as(events[order[k] as int]) by {
        assert(copies[order[k] as int].same_as(events[order[k] as int]));
    }
}

/// Runs every rule over the events ordered by time and id, and orders the
/// detections by start and id.
pub fn detect_all(events: &[EventRecord], config: &DetectorConfig) -> (r: Vec<Detection>)
    requires
        forall|ev: Seq<EventRecord>|
            #[trigger] time_ordered(events@, ev) ==> {
                &&& rule_ready(WindowRule::Brute, ev, *config)
                &&& rule_ready(WindowRule::Spray, ev, *config)
                &&& rule_ready(WindowRule::Lateral, ev, *config)
                &&& follow_ready(ev, *config)
            },
    ensures
        detected(events@, *config, r@),
{
    let mut copies: Vec<EventRecord> = Vec::new();
    let mut i: usize = 0;
    while i < events.len()
        invariant
            i <= events.len(),
            copies.len() == i,
            forall|k: int| 0 <= k < i ==> (#[trigger] copies@[k]).same_as(events@[k]),
        decreases events.len() - i,
    {
        copies.push(copy_event(&events[i]));
        i += 1;
    }
    let ghost input = copies@;
    let ordered = sort_events(copies);
    proof {
        lemma_time_ordered(events@, input, ordered@);
    }
    let brute = run_rule(WindowRule::Brute, &ordered, config);
    let spray = run_rule(WindowRule::Spray, &ordered, config);
    let follow = run_follow(&ordered, config);
    let lateral = run_rule(WindowRule::Lateral, &ordered, config);
    let mut all: Vec<Detection> = Vec::new();
    let ghost ev = ordered@;
    let ghost spec_all = all_views(ev, *config);
    append(&mut all, brute);
    append(&mut all, spray);
    append(&mut all, follow);
    append(&mut all, lateral);
    proof {
        assert(det_views(all@) =~= spec_all);
    }
    let mut keys: Vec<SortKey> = Vec::new();
    let mut k: usize = 0;
    while k < all.len()
        invariant
            k <= all.len(),
            keys.len() == k,
            forall|q: int| 0 <= q < k ==> (#[trigger] keys@[q]).view_key() == detection_key(all@[q].view_of()),
        decreases all.len() - k,
    {
        let d = &all[k];
        keys.push(SortKey { major: d.started_at.secs, minor: d.started_at.nanos, text: chars_of(d.id.as_str()) });
        k += 1;
    }
    let order = stable_order(&keys);
    let ghost kv = key_views(keys@);
    let ghost items = all@;
    proof {
        assert forall|a: int, b: int|
            0 <= a < order.len() && 0 <= b < order.len() && a != b implies #[trigger] order@[a] != #[trigger] order@[b] by {
            crate::sort::lemma_ordered_distinct(kv, order@, a, b);
        }
    }
    let r = permute(all, &order);
    proof {
        let views = det_views(items);
        assert forall|q: int| 0 <= q < kv.len() implies kv[q] == detection_key(#[trigger] views[q]) by {
            assert(kv[q] == keys@[q].view_key());
        }
        assert forall|a: int, b: int|
            0 <= a < b < order.len() implies {
                ||| starts_before(views[#[trigger] order@[a] as int], views[#[trigger] order@[b] as int])
                ||| (!starts_before(views[order@[b] as int], views[order@[a] as int]) && order@[a] < order@[b])
            } by {
            let x = order@[a] as int;
            let y = order@[b] as int;
            assert(crate::sort::pos_lt(kv, x, y));
            assert(kv[x] == detection_key(views[x]));
            assert(kv[y] == detection_key(views[y]));
            if kv[x] == kv[y] {
                lemma_text_lt_irrefl(views[x].id);
            }
        }
        assert forall|q: int| 0 <= q < r.len() implies #[trigger] det_views(r@)[q] == views[order@[q] as int] by {
            assert(r@[q] == items[order@[q] as int]);
        }
        assert(sorted_views(spec_all, det_views(r@)));
    }
    r
}

/// The sort key of a detection: start time, then id.
pub open spec fn detection_key(d: DetectionView) -> (int, int, Seq<char>) {
    (d.started_at.secs as int, d.started_at.nanos as int, d.id)
}

/// Moves the detections of `more` to the end of `all`.
fn append(all: &mut Vec<Detection>, more: Vec<Detection>)
    ensures
        det_views(final(all)@) == det_views(old(all)@) + det_views(more@),
{
    let mut more = more;
    let ghost m0 = more@;
    let ghost a0 = old(all)@;
    let mut rest: Vec<Detection> = Vec::new();
    while more.len() > 0
        invariant
            m0.len() == more.len() + rest.len(),
            more@ == m0.take(more.len() as int),
            forall|q: int| 0 <= q < rest.len() ==> #[trigger] rest@[q] == m0[m0.len() - 1 - q],
        decreases more.len(),
    {
        let d = more.pop().unwrap();
        assert(more@ =~= m0.take(more.len() as int));
        rest.push(d);
    }
    while rest.len() > 0
        invariant
            all@.len() + rest.len() == a0.len() + m0.len(),
            all@.len() >= a0.len(),
            forall|q: int| 0 <= q < a0.len() ==> #[trigger] all@[q] == a0[q],
            forall|q: int| a0.len() <= q < all@.len() ==> #[trigger] all@[q] == m0[q - a0.len()],
            forall|q: int| 0 <= q < rest.len() ==> #[trigger] rest@[q] == m0[m0.len() - 1 - q],
        decreases rest.len(),
    {
        let d = rest.pop().unwrap();
        all.push(d);
    }
    assert(det_views(all@) =~= det_views(a0) + det_views(m0));
}

/// Every event is in `chrono`'s range and each rule's window, of one, two
/// or three times `w` seconds, can be measured back from it.
pub open spec fn windows_measurable(events: Seq<EventRecord>, w: int) -> bool {
    forall|k: int|
        0 <= k < events.len() ==> {
            &&& (#[trigger] events[k]).timestamp.wf()
            &&& events[k].timestamp.can_shift_back(w)
            &&& events[k].timestamp.can_shift_back(w * 2)
            &&& events[k].timestamp.can_shift_back(w * 3)
        }
}

/// Whether `detect_all` may run on `events` with `config`. A `true` answer
/// guarantees its precondition; the test is conservative in that it also
/// turns down a configuration that asks for no failures before a success.
pub fn detect_ready(events: &[EventRecord], config: &DetectorConfig) -> (r: bool)
    ensures
        r <==> (config.brute_force_failures > 0 && -(i64::MAX / 3000) <= config.window_seconds <= i64::MAX / 3000
            && windows_measurable(events@, config.window_seconds as int)),
        r ==> forall|ev: Seq<EventRecord>|
            #[trigger] time_ordered(events@, ev) ==> {
                &&& rule_ready(WindowRule::Brute, ev, *config)
                &&& rule_ready(WindowRule::Spray, ev, *config)
                &&& rule_ready(WindowRule::Lateral, ev, *config)
                &&& follow_ready(ev, *config)
            },
{
    let w = config.window_seconds;
    if config.brute_force_failures == 0 || w < -(i64::MAX / 3000) || w > i64::MAX / 3000 {
        return false;
    }
    let mut i: usize = 0;
    while i < events.len()
        invariant
            i <= events.len(),
            w == config.window_seconds,
            -(i64::MAX / 3000) <= w <= i64::MAX / 3000,
            windows_measurable(events@.take(i as int), w as int),
        decreases events.len() - i,
    {
        let t = &events[i].timestamp;
        if !t.shift_back_ok(w) || !t.shift_back_ok(w * 2) || !t.shift_back_ok(w * 3) {
            proof {
                assert(!windows_measurable(events@, w as int)) by {
                    assert(events@[i as int].timestamp == *t);
                }
            }
            return false;
        }
        proof {
            assert forall|k: int| 0 <= k < i + 1 implies {
                &&& (#[trigger] events@.take(i + 1)[k]).timestamp.wf()
                &&& events@.take(i + 1)[k].timestamp.can_shift_back(w as int)
                &&& events@.take(i + 1)[k].timestamp.can_shift_back(w * 2)
                &&& events@.take(i + 1)[k].timestamp.can_shift_back(w * 3)
            } by {
                if k < i {
                    assert(events@.take(i + 1)[k] == events@.take(i as int)[k]);
                }
            }
        }
        i += 1;
    }
    proof {
        assert(events@.take(events.len() as int) =~= events@);
        assert forall|ev: Seq<EventRecord>| #[trigger] time_ordered(events@, ev) implies {
            &&& rule_ready(WindowRule::Brute, ev, *config)
            &&& rule_ready(WindowRule::Spray, ev, *config)
            &&& rule_ready(WindowRule::Lateral, ev, *config)
            &&& follow_ready(ev, *config)
        } by {
            let order = choose|order: Seq<usize>|
                #![trigger order.len()]
                {
                    &&& order.len() == events@.len()
                    &&& ev.len() == events@.len()
                    &&& forall|k: int| 0 <= k < order.len() ==> (#[trigger] order[k] as int) < events@.len()
                    &&& forall|a: int, b: int|
                        0 <= a < b < order.len() ==> {
                            ||| event_before(events@[#[trigger] order[a] as int], events@[#[trigger] order[b] as int])
                            ||| (!event_before(events@[order[b] as int], events@[order[a] as int]) && order[a] < order[b])
                        }
                    &&& forall|k: int| 0 <= k < ev.len() ==> (#[trigger] ev[k]).same_as(events@[order[k] as int])
                };
            assert forall|j: int| 0 <= j < ev.len() implies {
                &&& (#[trigger] ev[j]).timestamp.wf()
                &&& ev[j].timestamp.can_shift_back(w as int)
                &&& ev[j].timestamp.can_shift_back(w * 2)
                &&& ev[j].timestamp.can_shift_back(w * 3)
            } by {
                assert(ev[j].same_as(events@[order[j] as int]));
                assert(events@[order[j] as int].timestamp.wf());
            }
            assert forall|j: int| 0 <= j < ev.len() && #[trigger] admits(WindowRule::Brute, ev[j]) implies {
                &&& ev[j].timestamp.wf()
                &&& i64::MIN <= span(WindowRule::Brute, *config) <= i64::MAX
                &&& ev[j].timestamp.can_shift_back(span(WindowRule::Brute, *config))
            } by {
                assert(ev[j].timestamp.wf());
            }
            assert forall|j: int| 0 <= j < ev.len() && #[trigger] admits(WindowRule::Spray, ev[j]) implies {
                &&& ev[j].timestamp.wf()
                &&& i64::MIN <= span(WindowRule::Spray, *config) <= i64::MAX
                &&& ev[j].timestamp.can_shift_back(span(WindowRule::Spray, *config))
            } by {
                assert(ev[j].timestamp.wf());
            }
            assert forall|j: int| 0 <= j < ev.len() && #[trigger] admits(WindowRule::Lateral, ev[j]) implies {
                &&& ev[j].timestamp.wf()
                &&& i64::MIN <= span(WindowRule::Lateral, *config) <= i64::MAX
                &&& ev[j].timestamp.can_shift_back(span(WindowRule::Lateral, *config))
            } by {
                assert(ev[j].timestamp.wf());
            }
            assert forall|j: int| 0 <= j < ev.len() && (#[trigger] ev[j]).user is Some && ev[j].source_ip is Some implies {
                &&& ev[j].timestamp.wf()
                &&& i64::MIN <= config.window_seconds * 2 <= i64::MAX
                &&& ev[j].timestamp.can_shift_back(config.window_seconds * 2)
                &&& !follow_fires_empty(ev, *config, j)
            } by {
                assert(ev[j].timestamp.wf());
            }
        }
    }
    true
}

/// How many events carry value `v` in the field.
pub open spec fn count_of(vals: Seq<Option<Seq<char>>>, v: Seq<char>) -> nat
    decreases vals.len(),
{
    if vals.len() == 0 {
        0
    } else {
        count_of(vals.drop_last(), v) + if vals.last() == Some(v) { 1nat } else { 0nat }
    }
}

/// The values a field takes across the events, once each.
pub open spec fn field_values(vals: Seq<Option<Seq<char>>>) -> Seq<Seq<char>>
    decreases vals.len(),
{
    if vals.len() == 0 {
        Seq::empty()
    } else {
        let prev = field_values(vals.drop_last());
        match vals.last() {
            Some(v) => if prev.contains(v) {
                prev
            } else {
                prev.push(v)
            },
            None => prev,
        }
    }
}

/// The field's value on each event.
pub open spec fn field_column(events: Seq<EventRecord>, field: Seq<char>) -> Seq<Option<Seq<char>>> {
    events.map_values(|e: EventRecord| e.field_value(field))
}

/// `(count, value)` pairs ordered by count, then value.
pub open spec fn pair_gt(a: (Seq<char>, int), b: (Seq<char>, int)) -> bool {
    a.1 > b.1 || (a.1 == b.1 && text_lt(b.0, a.0))
}

/// Output order: larger count first, then smaller value.
pub open spec fn ranks_before(a: (Seq<char>, int), b: (Seq<char>, int)) -> bool {
    a.1 > b.1 || (a.1 == b.1 && text_lt(a.0, b.0))
}

/// `r` holds the `limit` greatest `(count, value)` pairs of the field's
/// values (all of them when fewer), listed by count, largest first, then
/// by value.
pub open spec fn top_of(events: Seq<EventRecord>, field: Seq<char>, limit: usize, r: Seq<(Seq<char>, int)>) -> bool {
    let col = field_column(events, field);
    let vals = field_values(col);
    &&& r.len() == if limit < vals.len() { limit as int } else { vals.len() as int }
    &&& forall|k: int| 0 <= k < r.len() ==> vals.contains((#[trigger] r[k]).0) && r[k].1 == count_of(col, r[k].0)
    &&& forall|a: int, b: int| 0 <= a < b < r.len() ==> ranks_before(#[trigger] r[a], #[trigger] r[b])
    &&& forall|v: Seq<char>, k: int|
        #[trigger] vals.contains(v) && 0 <= k < r.len() && (forall|q: int| 0 <= q < r.len() ==> r[q].0 != v) ==> pair_gt(
            #[trigger] r[k],
            (v, count_of(col, v) as int),
        )
}

pub open spec fn count_pairs(r: Seq<(String, usize)>) -> Seq<(Seq<char>, int)> {
    r.map_values(|p: (String, usize)| (p.0@, p.1 as int))
}

pub open spec fn pair_view_s(p: (String, usize)) -> (Seq<char>, int) {
    (p.0@, p.1 as int)
}

proof fn lemma_field_values_distinct(col: Seq<Option<Seq<char>>>)
    ensures
        field_values(col).no_duplicates(),
    decreases col.len(),
{
    if col.len() > 0 {
        lemma_field_values_distinct(col.drop_last());
        let prev = field_values(col.drop_last());
        match col.last() {
            Some(v) => {
                if !prev.contains(v) {
                    let next = prev.push(v);
                    assert forall|a: int, b: int| 0 <= a < next.len() && 0 <= b < next.len() && a != b implies next[a] != next[b] by {
                        if a == prev.len() {
                            assert(prev.contains(prev[b]));
                        } else if b == prev.len() {
                            assert(prev.contains(prev[a]));
                        }
                    }
                }
            },
            None => {},
        }
    }
}

/// A value that occurs in the field is among its listed values.
proof fn lemma_count_listed(col: Seq<Option<Seq<char>>>, v: Seq<char>)
    ensures
        count_of(col, v) > 0 ==> field_values(col).contains(v),
    decreases col.len(),
{
    if col.len() > 0 {
        lemma_count_listed(col.drop_last(), v);
        let prev = field_values(col.drop_last());
        if count_of(col, v) > 0 {
            if col.last() == Some(v) {
                if !prev.contains(v) {
                    assert(prev.push(v)[prev.len() as int] == v);
                }
            } else {
                let k = choose|k: int| 0 <= k < prev.len() && prev[k] == v;
                match col.last() {
                    Some(w) => {
                        if !prev.contains(w) {
                            assert(prev.push(w)[k] == v);
                        }
                    },
                    None => {},
                }
            }
        }
    }
}

proof fn lemma_pair_gt_trans(a: (Seq<char>, int), b: (Seq<char>, int), c: (Seq<char>, int))
    requires
        pair_gt(a, b),
        pair_gt(b, c),
    ensures
        pair_gt(a, c),
{
    if a.1 == b.1 && b.1 == c.1 {
        lemma_text_lt_trans(c.0, b.0, a.0);
    }
}

proof fn lemma_pair_gt_total(a: (Seq<char>, int), b: (Seq<char>, int))
    requires
        a.0 != b.0,
    ensures
        pair_gt(a, b) || pair_gt(b, a),
{
    lemma_text_lt_total(a.0, b.0);
}

proof fn lemma_ranks_trans(a: (Seq<char>, int), b: (Seq<char>, int), c: (Seq<char>, int))
    requires
        ranks_before(a, b),
        ranks_before(b, c),
    ensures
        ranks_before(a, c),
{
    if a.1 == b.1 && b.1 == c.1 {
        lemma_text_lt_trans(a.0, b.0, c.0);
    }
}

proof fn lemma_ranks_total(a: (Seq<char>, int), b: (Seq<char>, int))
    requires
        a.0 != b.0,
    ensures
        ranks_before(a, b) || ranks_before(b, a),
{
    lemma_text_lt_total(a.0, b.0);
}

/// With fewer picks than entries, some entry is unpicked.
proof fn lemma_free_exists(chosen: Seq<bool>, sel: Seq<usize>)
    requires
        sel.len() < chosen.len(),
        chosen.len() <= usize::MAX,
        forall|q: int| 0 <= q < chosen.len() && #[trigger] chosen[q] ==> sel.contains(q as usize),
    ensures
        exists|q: int| 0 <= q < chosen.len() && !chosen[q],
{
    if forall|q: int| 0 <= q < chosen.len() ==> chosen[q] {
        let all = Set::new(|x: usize| (x as int) < chosen.len());
        assert(all.subset_of(sel.to_set())) by {
            assert forall|x: usize| all.contains(x) implies sel.to_set().contains(x) by {
                assert(chosen[x as int]);
            }
        }
        sel.lemma_cardinality_of_set();
        vstd::seq_lib::seq_to_set_is_finite(sel);
        vstd::set_lib::lemma_len_subset(all, sel.to_set());
        assert(all.len() == chosen.len()) by {
            lemma_usize_range_len(chosen.len() as int);
        }
    }
}

/// The set of `usize` values below `n` has `n` elements.
pub(crate) proof fn lemma_usize_range_len(n: int)
    requires
        0 <= n <= usize::MAX + 1,
    ensures
        Set::new(|x: usize| (x as int) < n).finite(),
        Set::new(|x: usize| (x as int) < n).len() == n,
    decreases n,
{
    let s = Set::new(|x: usize| (x as int) < n);
    if n == 0 {
        assert(s =~= Set::empty());
    } else {
        lemma_usize_range_len(n - 1);
        let t = Set::new(|x: usize| (x as int) < n - 1);
        assert(s =~= t.insert((n - 1) as usize));
    }
}

/// With fewer emitted than selected, some selected entry is not emitted.
proof fn lemma_unemitted_exists(emitted: Seq<bool>, out: Seq<usize>, sel: Seq<usize>)
    requires
        out.len() < sel.len(),
        forall|q: int| 0 <= q < sel.len() ==> (#[trigger] sel[q]) < emitted.len(),
        forall|a: int, b: int| 0 <= a < b < sel.len() ==> sel[a] != sel[b],
        forall|q: int| 0 <= q < emitted.len() && #[trigger] emitted[q] ==> out.contains(q as usize),
    ensures
        exists|q: int| 0 <= q < sel.len() && !emitted[sel[q] as int],
{
    if forall|q: int| 0 <= q < sel.len() ==> emitted[sel[q] as int] {
        assert(sel.no_duplicates());
        sel.unique_seq_to_set();
        assert(sel.to_set().subset_of(out.to_set())) by {
            assert forall|x: usize| sel.to_set().contains(x) implies out.to_set().contains(x) by {
                let q = choose|q: int| 0 <= q < sel.len() && sel[q] == x;
                assert(emitted[sel[q] as int]);
            }
        }
        out.lemma_cardinality_of_set();
        vstd::seq_lib::seq_to_set_is_finite(out);
        vstd::set_lib::lemma_len_subset(sel.to_set(), out.to_set());
    }
}

/// Distinct picks from the selection, as many as it has, cover it.
proof fn lemma_out_covers_sel(out: Seq<usize>, sel: Seq<usize>)
    requires
        out.len() == sel.len(),
        forall|a: int, b: int| 0 <= a < b < out.len() ==> out[a] != out[b],
        forall|a: int, b: int| 0 <= a < b < sel.len() ==> sel[a] != sel[b],
        forall|q: int| 0 <= q < out.len() ==> sel.contains(#[trigger] out[q]),
    ensures
        forall|q: int| 0 <= q < sel.len() ==> out.contains(#[trigger] sel[q]),
{
    assert(out.no_duplicates());
    assert(sel.no_duplicates());
    out.unique_seq_to_set();
    sel.unique_seq_to_set();
    assert(out.to_set().subset_of(sel.to_set()));
    vstd::seq_lib::seq_to_set_is_finite(sel);
    vstd::seq_lib::seq_to_set_is_finite(out);
    assert forall|q: int| 0 <= q < sel.len() implies out.contains(#[trigger] sel[q]) by {
        if !out.contains(sel[q]) {
            assert(out.to_set().subset_of(sel.to_set().remove(sel[q])));
            vstd::set_lib::lemma_len_subset(out.to_set(), sel.to_set().remove(sel[q]));
        }
    }
}

fn pair_gt_exec(a: &(Vec<char>, usize), b: &(Vec<char>, usize)) -> (r: bool)
    ensures
        r == pair_gt(pair_view(*a), pair_view(*b)),
{
    a.1 > b.1 || (a.1 == b.1 && text_less(b.0.as_slice(), a.0.as_slice()))
}

fn ranks_before_exec(a: &(Vec<char>, usize), b: &(Vec<char>, usize)) -> (r: bool)
    ensures
        r == ranks_before(pair_view(*a), pair_view(*b)),
{
    a.1 > b.1 || (a.1 == b.1 && text_less(a.0.as_slice(), b.0.as_slice()))
}

pub open spec fn pair_view(p: (Vec<char>, usize)) -> (Seq<char>, int) {
    (p.0@, p.1 as int)
}

pub open spec fn names_of(c: Seq<(Vec<char>, usize)>) -> Seq<Seq<char>> {
    c.map_values(|p: (Vec<char>, usize)| p.0@)
}

/// No two tallies carry the same value.
pub open spec fn distinct_names(c: Seq<(Vec<char>, usize)>) -> bool {
    forall|a: int, b: int| 0 <= a < c.len() && 0 <= b < c.len() && a != b ==> (#[trigger] c[a]).0@ != (#[trigger] c[b]).0@
}

/// Where the tally of a value stands, if it has one.
fn find_name(counts: &Vec<(Vec<char>, usize)>, v: &[char]) -> (r: Option<usize>)
    ensures
        match r {
            Some(q) => q < counts.len() && counts@[q as int].0@ == v@,
            None => forall|t: int| 0 <= t < counts.len() ==> (#[trigger] counts@[t]).0@ != v@,
        },
{
    let mut q: usize = 0;
    while q < counts.len()
        invariant
            q <= counts.len(),
            forall|t: int| 0 <= t < q ==> (#[trigger] counts@[t]).0@ != v@,
        decreases counts.len() - q,
    {
        if seq_eq(counts[q].0.as_slice(), v) {
            return Some(q);
        }
        q += 1;
    }
    None
}

/// How often each value of the field occurs, in order of first occurrence.
fn tally(events: &[EventRecord], field: &str) -> (counts: Vec<(Vec<char>, usize)>)
    ensures
        names_of(counts@) == field_values(field_column(events@, field@)),
        distinct_names(counts@),
        forall|q: int| 0 <= q < counts.len() ==> (#[trigger] counts@[q]).1 == count_of(field_column(events@, field@), counts@[q].0@),
{
    let ghost col = field_column(events@, field@);
    let mut counts: Vec<(Vec<char>, usize)> = Vec::new();
    let mut i: usize = 0;
    while i < events.len()
        invariant
            i <= events.len(),
            col == field_column(events@, field@),
            names_of(counts@) == field_values(col.take(i as int)),
            forall|q: int| 0 <= q < counts.len() ==> (#[trigger] counts@[q]).1 == count_of(col.take(i as int), counts@[q].0@),
            forall|q: int| 0 <= q < counts.len() ==> (#[trigger] counts@[q]).1 <= i,
        decreases events.len() - i,
    {
        let ghost before = col.take(i as int);
        let ghost after = col.take(i + 1);
        let ghost names = names_of(counts@);
        proof {
            assert(after.drop_last() =~= before);
            assert(after.last() == col[i as int]);
            lemma_field_values_distinct(before);
        }
        match events[i].field(field) {
            Some(v) => {
                let vc = chars_of(v.as_str());
                assert(col[i as int] == Some(vc@));
                match find_name(&counts, vc.as_slice()) {
                    Some(q) => {
                        let name = crate::text::copy_chars(counts[q].0.as_slice());
                        let c = counts[q].1;
                        counts.set(q, (name, c + 1));
                        proof {
                            assert(names[q as int] == vc@);
                            assert(names.contains(vc@));
                            assert(names_of(counts@) =~= names);
                            assert forall|t: int| 0 <= t < counts.len() implies (#[trigger] counts@[t]).1 == count_of(after, counts@[t].0@) by {
                                if t != q {
                                    assert(names[t] == counts@[t].0@);
                                    assert(names[t] != names[q as int]);
                                }
                            }
                        }
                    },
                    None => {
                        proof {
                            assert(!names.contains(vc@)) by {
                                if names.contains(vc@) {
                                    let t = choose|t: int| 0 <= t < names.len() && names[t] == vc@;
                                    assert(counts@[t].0@ == names[t]);
                                }
                            }
                            lemma_count_listed(before, vc@);
                        }
                        counts.push((vc, 1));
                        proof {
                            assert(names_of(counts@) =~= names.push(vc@));
                            assert forall|t: int| 0 <= t < counts.len() implies (#[trigger] counts@[t]).1 == count_of(after, counts@[t].0@) by {
                                if t < names.len() {
                                    assert(counts@[t].0@ == names[t]);
                                }
                            }
                        }
                    },
                }
            },
            None => {
                assert(col[i as int] is None);
                assert forall|t: int| 0 <= t < counts.len() implies (#[trigger] counts@[t]).1 == count_of(after, counts@[t].0@) by {}
            },
        }
        i += 1;
    }
    proof {
        assert(col.take(events.len() as int) =~= col);
        lemma_field_values_distinct(col);
        assert forall|a: int, b: int| 0 <= a < counts.len() && 0 <= b < counts.len() && a != b implies (#[trigger] counts@[a]).0@ != (#[trigger] counts@[b]).0@ by {
            assert(names_of(counts@)[a] == counts@[a].0@);
            assert(names_of(counts@)[b] == counts@[b].0@);
        }
    }
    counts
}

/// The greatest tally not yet chosen.
fn best_free(counts: &Vec<(Vec<char>, usize)>, chosen: &Vec<bool>) -> (best: usize)
    requires
        chosen.len() == counts.len(),
        distinct_names(counts@),
        exists|q: int| 0 <= q < chosen.len() && !chosen@[q],
    ensures
        best < counts.len(),
        !chosen@[best as int],
        forall|u: int|
            0 <= u < counts.len() && !chosen@[u] && u != best ==> pair_gt(pair_view(counts@[best as int]), pair_view(#[trigger] counts@[u])),
{
    let m = counts.len();
    let mut best: usize = 0;
    while best < m && chosen[best]
        invariant
            best <= m,
            chosen.len() == m,
            exists|q: int| best <= q < m && !chosen@[q],
            forall|u: int| 0 <= u < best ==> chosen@[u],
        decreases m - best,
    {
        best += 1;
    }
    let mut q = best + 1;
    while q < m
        invariant
            best < q <= m,
            m == counts.len(),
            chosen.len() == m,
            !chosen@[best as int],
            distinct_names(counts@),
            forall|u: int| 0 <= u < q && !chosen@[u] && u != best ==> pair_gt(pair_view(counts@[best as int]), pair_view(#[trigger] counts@[u])),
        decreases m - q,
    {
        if !chosen[q] && pair_gt_exec(&counts[q], &counts[best]) {
            proof {
                assert forall|u: int| 0 <= u < q + 1 && !chosen@[u] && u != q implies pair_gt(pair_view(counts@[q as int]), pair_view(#[trigger] counts@[u])) by {
                    if u != best {
                        lemma_pair_gt_trans(pair_view(counts@[q as int]), pair_view(counts@[best as int]), pair_view(counts@[u]));
                    }
                }
            }
            best = q;
        } else {
            proof {
                if !chosen@[q as int] {
                    lemma_pair_gt_total(pair_view(counts@[q as int]), pair_view(counts@[best as int]));
                }
            }
        }
        q += 1;
    }
    best
}

/// Indices of the `t` greatest tallies.
fn select_top(counts: &Vec<(Vec<char>, usize)>, t: usize) -> (sel: Vec<usize>)
    requires
        t <= counts.len(),
        distinct_names(counts@),
    ensures
        sel.len() == t,
        forall|q: int| 0 <= q < t ==> (#[trigger] sel@[q]) < counts.len(),
        forall|a: int, b: int| 0 <= a < b < t ==> sel@[a] != sel@[b],
        forall|q: int, u: int|
            #![trigger sel@[q], counts@[u]]
            0 <= q < t && 0 <= u < counts.len() && !sel@.contains(u as usize) ==> pair_gt(
                pair_view(counts@[sel@[q] as int]),
                pair_view(counts@[u]),
            ),
{
    let m = counts.len();
    let mut chosen: Vec<bool> = Vec::new();
    let mut k: usize = 0;
    while k < m
        invariant
            k <= m,
            chosen.len() == k,
            forall|q: int| 0 <= q < k ==> !(#[trigger] chosen@[q]),
        decreases m - k,
    {
        chosen.push(false);
        k += 1;
    }
    let mut sel: Vec<usize> = Vec::new();
    while sel.len() < t
        invariant
            m == counts.len(),
            t <= m,
            chosen.len() == m,
            sel.len() <= t,
            distinct_names(counts@),
            forall|q: int| 0 <= q < sel.len() ==> (#[trigger] sel@[q]) < m && chosen@[sel@[q] as int],
            forall|a: int, b: int| 0 <= a < b < sel.len() ==> sel@[a] != sel@[b],
            forall|q: int| 0 <= q < m && #[trigger] chosen@[q] ==> sel@.contains(q as usize),
            forall|c: int, u: int|
                0 <= c < m && 0 <= u < m && #[trigger] chosen@[c] && !#[trigger] chosen@[u] ==> pair_gt(
                    pair_view(counts@[c]),
                    pair_view(counts@[u]),
                ),
        decreases t - sel.len(),
    {
        proof {
            lemma_free_exists(chosen@, sel@);
        }
        let best = best_free(counts, &chosen);
        let ghost c0 = chosen@;
        let ghost s0 = sel@;
        chosen.set(best, true);
        sel.push(best);
        proof {
            assert forall|c: int, u: int|
                0 <= c < m && 0 <= u < m && #[trigger] chosen@[c] && !#[trigger] chosen@[u] implies pair_gt(
                    pair_view(counts@[c]),
                    pair_view(counts@[u]),
                ) by {
                if c != best {
                    assert(c0[c]);
                }
            }
            assert forall|q2: int| 0 <= q2 < m && #[trigger] chosen@[q2] implies sel@.contains(q2 as usize) by {
                if q2 != best {
                    assert(c0[q2]);
                    let w = choose|w: int| 0 <= w < s0.len() && s0[w] == q2 as usize;
                    assert(sel@[w] == q2 as usize);
                } else {
                    assert(sel@[sel@.len() - 1] == best);
                }
            }
            assert forall|a: int, b: int| 0 <= a < b < sel.len() implies sel@[a] != sel@[b] by {
                if b == sel.len() - 1 {
                    assert(c0[s0[a] as int]);
                }
            }
        }
    }
    proof {
        assert forall|q: int, u: int|
            #![trigger sel@[q], counts@[u]]
            0 <= q < t && 0 <= u < m && !sel@.contains(u as usize) implies pair_gt(
                pair_view(counts@[sel@[q] as int]),
                pair_view(counts@[u]),
            ) by {
            assert(chosen@[sel@[q] as int]);
            assert(!chosen@[u]);
        }
    }
    sel
}

/// Position in `sel` of the first-ranked tally not yet emitted.
fn best_unemitted(counts: &Vec<(Vec<char>, usize)>, sel: &Vec<usize>, emitted: &Vec<bool>) -> (bq: usize)
    requires
        emitted.len() == counts.len(),
        distinct_names(counts@),
        forall|q: int| 0 <= q < sel.len() ==> (#[trigger] sel@[q]) < counts.len(),
        forall|a: int, b: int| 0 <= a < b < sel.len() ==> sel@[a] != sel@[b],
        exists|q: int| 0 <= q < sel.len() && !emitted@[sel@[q] as int],
    ensures
        bq < sel.len(),
        !emitted@[sel@[bq as int] as int],
        forall|w: int|
            0 <= w < sel.len() && !emitted@[sel@[w] as int] && w != bq ==> ranks_before(
                pair_view(counts@[sel@[bq as int] as int]),
                pair_view(counts@[#[trigger] sel@[w] as int]),
            ),
{
    let t = sel.len();
    let mut bq: usize = 0;
    while bq < t && emitted[sel[bq]]
        invariant
            bq <= t,
            t == sel.len(),
            emitted.len() == counts.len(),
            forall|q: int| 0 <= q < sel.len() ==> (#[trigger] sel@[q]) < counts.len(),
            exists|q: int| bq <= q < t && !emitted@[sel@[q] as int],
            forall|w: int| 0 <= w < bq ==> emitted@[sel@[w] as int],
        decreases t - bq,
    {
        bq += 1;
    }
    let mut q = bq + 1;
    while q < t
        invariant
            bq < q <= t,
            t == sel.len(),
            emitted.len() == counts.len(),
            forall|w: int| 0 <= w < sel.len() ==> (#[trigger] sel@[w]) < counts.len(),
            forall|a: int, b: int| 0 <= a < b < sel.len() ==> sel@[a] != sel@[b],
            distinct_names(counts@),
            !emitted@[sel@[bq as int] as int],
            forall|w: int|
                0 <= w < q && !emitted@[sel@[w] as int] && w != bq ==> ranks_before(
                    pair_view(counts@[sel@[bq as int] as int]),
                    pair_view(counts@[#[trigger] sel@[w] as int]),
                ),
        decreases t - q,
    {
        if !emitted[sel[q]] && ranks_before_exec(&counts[sel[q]], &counts[sel[bq]]) {
            proof {
                assert forall|w: int|
                    0 <= w < q + 1 && !emitted@[sel@[w] as int] && w != q implies ranks_before(
                        pair_view(counts@[sel@[q as int] as int]),
                        pair_view(counts@[#[trigger] sel@[w] as int]),
                    ) by {
                    if w != bq {
                        lemma_ranks_trans(
                            pair_view(counts@[sel@[q as int] as int]),
                            pair_view(counts@[sel@[bq as int] as int]),
                            pair_view(counts@[sel@[w] as int]),
                        );
                    }
                }
            }
            bq = q;
        } else {
            proof {
                if !emitted@[sel@[q as int] as int] {
                    assert(sel@[q as int] != sel@[bq as int]);
                    lemma_ranks_total(pair_view(counts@[sel@[q as int] as int]), pair_view(counts@[sel@[bq as int] as int]));
                }
            }
        }
        q += 1;
    }
    bq
}

/// The selected indices, listed by rank.
fn rank_order(counts: &Vec<(Vec<char>, usize)>, sel: &Vec<usize>) -> (out: Vec<usize>)
    requires
        distinct_names(counts@),
        forall|q: int| 0 <= q < sel.len() ==> (#[trigger] sel@[q]) < counts.len(),
        forall|a: int, b: int| 0 <= a < b < sel.len() ==> sel@[a] != sel@[b],
    ensures
        out.len() == sel.len(),
        forall|q: int| 0 <= q < out.len() ==> sel@.contains(#[trigger] out@[q]),
        forall|q: int| 0 <= q < sel.len() ==> out@.contains(#[trigger] sel@[q]),
        forall|a: int, b: int|
            0 <= a < b < out.len() ==> ranks_before(pair_view(counts@[#[trigger] out@[a] as int]), pair_view(counts@[#[trigger] out@[b] as int])),
{
    let m = counts.len();
    let t = sel.len();
    let mut emitted: Vec<bool> = Vec::new();
    let mut k: usize = 0;
    while k < m
        invariant
            k <= m,
            emitted.len() == k,
            forall|q: int| 0 <= q < k ==> !(#[trigger] emitted@[q]),
        decreases m - k,
    {
        emitted.push(false);
        k += 1;
    }
    let mut out: Vec<usize> = Vec::new();
    while out.len() < t
        invariant
            m == counts.len(),
            t == sel.len(),
            emitted.len() == m,
            out.len() <= t,
            distinct_names(counts@),
            forall|q: int| 0 <= q < sel.len() ==> (#[trigger] sel@[q]) < m,
            forall|a: int, b: int| 0 <= a < b < sel.len() ==> sel@[a] != sel@[b],
            forall|q: int| 0 <= q < out.len() ==> (#[trigger] out@[q]) < m && sel@.contains(out@[q]) && emitted@[out@[q] as int],
            forall|q: int| 0 <= q < m && #[trigger] emitted@[q] ==> out@.contains(q as usize),
            forall|a: int, b: int| 0 <= a < b < out.len() ==> out@[a] != out@[b],
            forall|a: int, q: int|
                0 <= a < out.len() && 0 <= q < sel.len() && !emitted@[sel@[q] as int] ==> ranks_before(
                    pair_view(counts@[#[trigger] out@[a] as int]),
                    pair_view(counts@[#[trigger] sel@[q] as int]),
                ),
            forall|a: int, b: int|
                0 <= a < b < out.len() ==> ranks_before(pair_view(counts@[#[trigger] out@[a] as int]), pair_view(counts@[#[trigger] out@[b] as int])),
        decreases t - out.len(),
    {
        proof {
            lemma_unemitted_exists(emitted@, out@, sel@);
        }
        let bq = best_unemitted(counts, sel, &emitted);
        let pick = sel[bq];
        let ghost e0 = emitted@;
        let ghost o0 = out@;
        emitted.set(pick, true);
        out.push(pick);
        proof {
            assert(sel@.contains(pick));
            assert forall|a: int, q2: int|
                0 <= a < out.len() && 0 <= q2 < sel.len() && !emitted@[sel@[q2] as int] implies ranks_before(
                    pair_view(counts@[#[trigger] out@[a] as int]),
                    pair_view(counts@[#[trigger] sel@[q2] as int]),
                ) by {
                if a < o0.len() {
                    assert(out@[a] == o0[a]);
                } else {
                    assert(q2 != bq);
                }
            }
            assert forall|a: int, b: int| 0 <= a < b < out.len() implies out@[a] != out@[b] by {
                if b == out.len() - 1 {
                    assert(e0[o0[a] as int]);
                }
            }
            assert forall|q2: int| 0 <= q2 < m && #[trigger] emitted@[q2] implies out@.contains(q2 as usize) by {
                if q2 != pick {
                    assert(e0[q2]);
                    let w = choose|w: int| 0 <= w < o0.len() && o0[w] == q2 as usize;
                    assert(out@[w] == q2 as usize);
                } else {
                    assert(out@[out.len() - 1] == pick);
                }
            }
            assert forall|a: int, b: int|
                0 <= a < b < out.len() implies ranks_before(pair_view(counts@[#[trigger] out@[a] as int]), pair_view(counts@[#[trigger] out@[b] as int])) by {
                if b == out.len() - 1 {
                    assert(out@[a] == o0[a]);
                    let w = choose|w: int| 0 <= w < sel.len() && sel@[w] == pick;
                    assert(!e0[sel@[w] as int]);
                }
            }
        }
    }
    proof {
        lemma_out_covers_sel(out@, sel@);
    }
    out
}

/// The most frequent values of a field, at most `limit`, by count
/// (largest first) and then by value.
pub fn top_entities(events: &[EventRecord], field: &str, limit: usize) -> (r: Vec<(String, usize)>)
    ensures
        top_of(events@, field@, limit, count_pairs(r@)),
{
    let ghost col = field_column(events@, field@);
    let ghost vals = field_values(col);
    let counts = tally(events, field);
    let m = counts.len();
    let t = if limit < m { limit } else { m };
    let sel = select_top(&counts, t);
    let out = rank_order(&counts, &sel);
    let mut r: Vec<(String, usize)> = Vec::new();
    let mut k: usize = 0;
    while k < t
        invariant
            k <= t,
            out.len() == t,
            r.len() == k,
            forall|q: int| 0 <= q < out.len() ==> (#[trigger] out@[q]) < counts.len(),
            forall|q: int| 0 <= q < k ==> pair_view_s(#[trigger] r@[q]) == pair_view(counts@[out@[q] as int]),
        decreases t - k,
    {
        let x = out[k];
        r.push((string_of(counts[x].0.as_slice()), counts[x].1));
        k += 1;
    }
    proof {
        let rv = count_pairs(r@);
        assert(names_of(counts@).len() == m);
        assert forall|kk: int| 0 <= kk < rv.len() implies vals.contains((#[trigger] rv[kk]).0) && rv[kk].1 == count_of(col, rv[kk].0) by {
            assert(rv[kk] == pair_view_s(r@[kk]));
            let x = out@[kk] as int;
            assert(names_of(counts@)[x] == counts@[x].0@);
        }
        assert forall|a: int, b: int| 0 <= a < b < rv.len() implies ranks_before(#[trigger] rv[a], #[trigger] rv[b]) by {
            assert(rv[a] == pair_view_s(r@[a]));
            assert(rv[b] == pair_view_s(r@[b]));
        }
        assert forall|v: Seq<char>, kk: int|
            #[trigger] vals.contains(v) && 0 <= kk < rv.len() && (forall|q2: int| 0 <= q2 < rv.len() ==> rv[q2].0 != v) implies pair_gt(
                #[trigger] rv[kk],
                (v, count_of(col, v) as int),
            ) by {
            let names = names_of(counts@);
            let u = choose|u: int| 0 <= u < names.len() && names[u] == v;
            assert(counts@[u].0@ == v);
            assert(!sel@.contains(u as usize)) by {
                if sel@.contains(u as usize) {
                    let w = choose|w: int| 0 <= w < sel.len() && sel@[w] == u as usize;
                    assert(out@.contains(sel@[w]));
                    let z = choose|z: int| 0 <= z < out.len() && out@[z] == sel@[w];
                    assert(rv[z] == pair_view_s(r@[z]));
                }
            }
            assert(rv[kk] == pair_view_s(r@[kk]));
            assert(sel@.contains(out@[kk]));
            let w = choose|w: int| 0 <= w < sel.len() && sel@[w] == out@[kk];
            assert(pair_gt(pair_view(counts@[sel@[w] as int]), pair_view(counts@[u])));
        }
    }
    r
}

} // verus!

verus! {

/// Two event sequences agree position by position, by content.
pub open spec fn same_events(a: Seq<EventRecord>, b: Seq<EventRecord>) -> bool {
    a.len() == b.len() && forall|i: int| 0 <= i < a.len() ==> (#[trigger] a[i]).same_as(b[i])
}

/// Every position in `w` is below `k`.
pub open spec fn within(w: Seq<int>, k: int) -> bool {
    forall|t: int| 0 <= t < w.len() ==> 0 <= #[trigger] w[t] < k
}

proof fn lemma_evicted_same(ev1: Seq<EventRecord>, ev2: Seq<EventRecord>, win: Seq<int>, cutoff: Timestamp, k: int)
    requires
        same_events(ev1, ev2),
        k <= ev1.len(),
        within(win, k),
    ensures
        evicted(ev1, win, cutoff) == evicted(ev2, win, cutoff),
        within(evicted(ev1, win, cutoff), k),
    decreases win.len(),
{
    if win.len() > 0 {
        assert(ev1[win[0]].same_as(ev2[win[0]]));
        let rest = win.drop_first();
        assert(within(rest, k)) by {
            assert forall|t: int| 0 <= t < rest.len() implies 0 <= #[trigger] rest[t] < k by {
                assert(rest[t] == win[t + 1]);
            }
        }
        lemma_evicted_same(ev1, ev2, rest, cutoff, k);
    }
}

proof fn lemma_named_same(rule: WindowRule, ev1: Seq<EventRecord>, ev2: Seq<EventRecord>, win: Seq<int>, k: int)
    requires
        same_events(ev1, ev2),
        k <= ev1.len(),
        within(win, k),
    ensures
        named(rule, ev1, win) == named(rule, ev2, win),
        win.map_values(|j: int| ev1[j].id@) == win.map_values(|j: int| ev2[j].id@),
{
    assert forall|t: int| 0 <= t < win.len() implies ev1[win[t]].same_as(ev2[win[t]]) by {
        assert(0 <= win[t] < k);
    }
    assert(win.map_values(|j: int| ev1[j].user) =~= win.map_values(|j: int| ev2[j].user));
    assert(win.map_values(|j: int| ev1[j].host) =~= win.map_values(|j: int| ev2[j].host));
    assert(win.map_values(|j: int| ev1[j].id@) =~= win.map_values(|j: int| ev2[j].id@));
}

/// A rule's windows and firings name only the first `k` events, and every
/// firing has a non-empty window.
pub open spec fn rule_state_within(st: RuleState, k: int) -> bool {
    &&& forall|key: Seq<char>| #[trigger] st.windows.contains_key(key) ==> within(st.windows[key], k)
    &&& forall|t: int|
        0 <= t < st.hits.len() ==> 0 <= (#[trigger] st.hits[t]).0 < k && within(st.hits[t].1, k) && st.hits[t].1.len() > 0
}

proof fn lemma_rule_state_same(rule: WindowRule, ev1: Seq<EventRecord>, ev2: Seq<EventRecord>, cfg: DetectorConfig, k: int)
    requires
        same_events(ev1, ev2),
        0 <= k <= ev1.len(),
    ensures
        rule_state(rule, ev1, cfg, k) == rule_state(rule, ev2, cfg, k),
        rule_state_within(rule_state(rule, ev1, cfg, k), k),
    decreases k,
{
    if k > 0 {
        lemma_rule_state_same(rule, ev1, ev2, cfg, k - 1);
        let st = rule_state(rule, ev1, cfg, k - 1);
        let i = k - 1;
        let e1 = ev1[i];
        let e2 = ev2[i];
        assert(e1.same_as(e2));
        if admits(rule, e1) {
            let key = rule_key(rule, e1);
            let win0 = if st.windows.contains_key(key) {
                st.windows[key]
            } else {
                Seq::empty()
            };
            let cutoff = cutoff_of(e1.timestamp, span(rule, cfg));
            lemma_evicted_same(ev1, ev2, win0, cutoff, k);
            let win = evicted(ev1, win0, cutoff).push(i);
            assert(within(win, k)) by {
                assert forall|t: int| 0 <= t < win.len() implies 0 <= #[trigger] win[t] < k by {
                    if t < win.len() - 1 {
                        assert(win[t] == evicted(ev1, win0, cutoff)[t]);
                    }
                }
            }
            lemma_named_same(rule, ev1, ev2, win, k);
            let nst = rule_state(rule, ev1, cfg, k);
            assert forall|key2: Seq<char>| #[trigger] nst.windows.contains_key(key2) implies within(nst.windows[key2], k) by {
                if key2 != key {
                    assert(within(st.windows[key2], k - 1));
                }
            }
            assert forall|t: int|
                0 <= t < nst.hits.len() implies 0 <= (#[trigger] nst.hits[t]).0 < k && within(nst.hits[t].1, k)
                    && nst.hits[t].1.len() > 0 by {
                if t < st.hits.len() {
                    assert(nst.hits[t] == st.hits[t]);
                }
            }
        } else {
            let nst = rule_state(rule, ev1, cfg, k);
            assert forall|key2: Seq<char>| #[trigger] nst.windows.contains_key(key2) implies within(nst.windows[key2], k) by {
                assert(within(st.windows[key2], k - 1));
            }
        }
    }
}

/// Failure-then-success windows and firings name only the first `k`
/// events, and every firing has a non-empty window.
pub open spec fn follow_state_within(st: FollowState, k: int) -> bool {
    &&& forall|key: Seq<char>| #[trigger] st.windows.contains_key(key) ==> within(st.windows[key], k)
    &&& forall|t: int|
        0 <= t < st.hits.len() ==> 0 <= (#[trigger] st.hits[t]).0 < k && within(st.hits[t].1, k) && st.hits[t].1.len() > 0
}

proof fn lemma_follow_state_same(ev1: Seq<EventRecord>, ev2: Seq<EventRecord>, cfg: DetectorConfig, k: int)
    requires
        same_events(ev1, ev2),
        0 <= k <= ev1.len(),
        follow_ready(ev1, cfg),
    ensures
        follow_state(ev1, cfg, k) == follow_state(ev2, cfg, k),
        follow_state_within(follow_state(ev1, cfg, k), k),
    decreases k,
{
    if k > 0 {
        lemma_follow_state_same(ev1, ev2, cfg, k - 1);
        let st = follow_state(ev1, cfg, k - 1);
        let i = k - 1;
        let e1 = ev1[i];
        let e2 = ev2[i];
        assert(e1.same_as(e2));
        let nst = follow_state(ev1, cfg, k);
        if e1.user is Some && e1.source_ip is Some {
            let key = identity_key(e1);
            let win0 = if st.windows.contains_key(key) {
                st.windows[key]
            } else {
                Seq::empty()
            };
            let cutoff = cutoff_of(e1.timestamp, cfg.window_seconds * 2);
            lemma_evicted_same(ev1, ev2, win0, cutoff, k);
            let win = follow_window(ev1, cfg, st, i);
            assert(win == evicted(ev1, win0, cutoff));
            assert(follow_window(ev2, cfg, st, i) == win);
            assert(within(win.push(i), k)) by {
                assert forall|t: int| 0 <= t < win.push(i).len() implies 0 <= #[trigger] win.push(i)[t] < k by {
                    if t < win.len() {
                        assert(win.push(i)[t] == win[t]);
                    }
                }
            }
            if e1.outcome == Outcome::Success && win.len() >= cfg.brute_force_failures {
                assert(!follow_fires_empty(ev1, cfg, i));
            }
            assert forall|key2: Seq<char>| #[trigger] nst.windows.contains_key(key2) implies within(nst.windows[key2], k) by {
                if key2 != key {
                    assert(within(st.windows[key2], k - 1));
                }
            }
            assert forall|t: int|
                0 <= t < nst.hits.len() implies 0 <= (#[trigger] nst.hits[t]).0 < k && within(nst.hits[t].1, k)
                    && nst.hits[t].1.len() > 0 by {
                if t < st.hits.len() {
                    assert(nst.hits[t] == st.hits[t]);
                }
            }
        } else {
            assert forall|key2: Seq<char>| #[trigger] nst.windows.contains_key(key2) implies within(nst.windows[key2], k) by {
                assert(within(st.windows[key2], k - 1));
            }
        }
    }
}

/// The rules report alike over event sequences that agree by content.
proof fn lemma_all_views_same(ev1: Seq<EventRecord>, ev2: Seq<EventRecord>, cfg: DetectorConfig)
    requires
        same_events(ev1, ev2),
        follow_ready(ev1, cfg),
    ensures
        all_views(ev1, cfg) == all_views(ev2, cfg),
{
    let n = ev1.len() as int;
    assert forall|rule: WindowRule| rule_views(rule, ev1, cfg) == rule_views(rule, ev2, cfg) by {
        lemma_rule_state_same(rule, ev1, ev2, cfg, n);
        let hits = rule_state(rule, ev1, cfg, n).hits;
        assert forall|t: int| 0 <= t < hits.len() implies rule_detection(rule, ev1, cfg, hits[t].0, hits[t].1)
            == rule_detection(rule, ev2, cfg, hits[t].0, hits[t].1) by {
            let (i, win) = hits[t];
            assert(ev1[i].same_as(ev2[i]));
            assert(ev1[win[0]].same_as(ev2[win[0]]));
            lemma_named_same(rule, ev1, ev2, win, n);
        }
        assert(rule_views(rule, ev1, cfg) =~= rule_views(rule, ev2, cfg));
    }
    lemma_follow_state_same(ev1, ev2, cfg, n);
    let fh = follow_state(ev1, cfg, n).hits;
    assert forall|t: int| 0 <= t < fh.len() implies follow_detection(ev1, fh[t].0, fh[t].1) == follow_detection(
        ev2,
        fh[t].0,
        fh[t].1,
    ) by {
        let (i, win) = fh[t];
        assert(ev1[i].same_as(ev2[i]));
        assert(ev1[win[0]].same_as(ev2[win[0]]));
        lemma_named_same(WindowRule::Brute, ev1, ev2, win, n);
    }
    assert(follow_views(ev1, cfg) =~= follow_views(ev2, cfg));
    assert(rule_views(WindowRule::Brute, ev1, cfg) == rule_views(WindowRule::Brute, ev2, cfg));
    assert(rule_views(WindowRule::Spray, ev1, cfg) == rule_views(WindowRule::Spray, ev2, cfg));
    assert(rule_views(WindowRule::Lateral, ev1, cfg) == rule_views(WindowRule::Lateral, ev2, cfg));
}

} // verus!

verus! {

proof fn lemma_starts_facts(x: DetectionView, y: DetectionView, z: DetectionView)
    ensures
        !starts_before(x, x),
        starts_before(x, y) && starts_before(y, z) ==> starts_before(x, z),
        starts_before(x, y) || starts_before(y, x) || (x.started_at == y.started_at && x.id == y.id),
{
    lemma_text_lt_irrefl(x.id);
    lemma_text_lt_total(x.id, y.id);
    if starts_before(x, y) && starts_before(y, z) && x.started_at == y.started_at && y.started_at == z.started_at {
        lemma_text_lt_trans(x.id, y.id, z.id);
    }
}

/// Position `a` of `all` comes before position `b` when detections are
/// ordered by start and id, ties kept in order.
pub open spec fn view_prec(all: Seq<DetectionView>, a: int, b: int) -> bool {
    starts_before(all[a], all[b]) || (!starts_before(all[b], all[a]) && a < b)
}

proof fn lemma_view_prec_total(all: Seq<DetectionView>)
    ensures
        strict_total(|a: int, b: int| view_prec(all, a, b), all.len() as int),
{
    let lt = |a: int, b: int| view_prec(all, a, b);
    let n = all.len() as int;
    assert forall|a: int| 0 <= a < n implies !#[trigger] lt(a, a) by {
        lemma_starts_facts(all[a], all[a], all[a]);
    }
    assert forall|a: int, b: int, c: int|
        0 <= a < n && 0 <= b < n && 0 <= c < n && #[trigger] lt(a, b) && #[trigger] lt(b, c) implies lt(a, c) by {
        lemma_starts_facts(all[a], all[b], all[c]);
        lemma_starts_facts(all[b], all[c], all[a]);
        lemma_starts_facts(all[c], all[a], all[b]);
        lemma_starts_facts(all[a], all[c], all[b]);
        lemma_starts_facts(all[b], all[a], all[c]);
        lemma_starts_facts(all[c], all[b], all[a]);
    }
    assert forall|a: int, b: int| 0 <= a < n && 0 <= b < n && a != b implies #[trigger] lt(a, b) || lt(b, a) by {
        lemma_starts_facts(all[a], all[b], all[a]);
    }
}

/// Detections ordered by start and id, ties kept in order, come out one
/// way.
proof fn lemma_sorted_views_unique(all: Seq<DetectionView>, d1: Seq<DetectionView>, d2: Seq<DetectionView>)
    requires
        sorted_views(all, d1),
        sorted_views(all, d2),
        all.len() <= usize::MAX,
    ensures
        d1 == d2,
{
    let lt = |a: int, b: int| view_prec(all, a, b);
    let n = all.len() as int;
    let q1 = choose|order: Seq<usize>|
        {
            &&& order.len() == all.len()
            &&& d1.len() == all.len()
            &&& forall|k: int| 0 <= k < order.len() ==> (#[trigger] order[k] as int) < all.len()
            &&& forall|a: int, b: int|
                0 <= a < b < order.len() ==> {
                    ||| starts_before(all[#[trigger] order[a] as int], all[#[trigger] order[b] as int])
                    ||| (!starts_before(all[order[b] as int], all[order[a] as int]) && order[a] < order[b])
                }
            &&& forall|k: int| 0 <= k < d1.len() ==> #[trigger] d1[k] == all[order[k] as int]
        };
    let q2 = choose|order: Seq<usize>|
        {
            &&& order.len() == all.len()
            &&& d2.len() == all.len()
            &&& forall|k: int| 0 <= k < order.len() ==> (#[trigger] order[k] as int) < all.len()
            &&& forall|a: int, b: int|
                0 <= a < b < order.len() ==> {
                    ||| starts_before(all[#[trigger] order[a] as int], all[#[trigger] order[b] as int])
                    ||| (!starts_before(all[order[b] as int], all[order[a] as int]) && order[a] < order[b])
                }
            &&& forall|k: int| 0 <= k < d2.len() ==> #[trigger] d2[k] == all[order[k] as int]
        };
    lemma_view_prec_total(all);
    assert(listing_by(lt, n, q1)) by {
        assert forall|a: int, b: int| 0 <= a < b < q1.len() implies lt(#[trigger] q1[a] as int, #[trigger] q1[b] as int) by {
            assert(view_prec(all, q1[a] as int, q1[b] as int));
        }
    }
    assert(listing_by(lt, n, q2)) by {
        assert forall|a: int, b: int| 0 <= a < b < q2.len() implies lt(#[trigger] q2[a] as int, #[trigger] q2[b] as int) by {
            assert(view_prec(all, q2[a] as int, q2[b] as int));
        }
    }
    lemma_listing_by_unique(lt, n, q1, q2);
    assert(d1 =~= d2) by {
        assert forall|k: int| 0 <= k < d1.len() implies d1[k] == d2[k] by {
            assert(d1[k] == all[q1[k] as int]);
            assert(d2[k] == all[q2[k] as int]);
        }
    }
}

} // verus!

verus! {

/// What `detect_all` reports for `events`: every rule run over the events
/// in time order, the reports ordered by start and id.
pub open spec fn detected(events: Seq<EventRecord>, cfg: DetectorConfig, r: Seq<Detection>) -> bool {
    exists|ev: Seq<EventRecord>| #[trigger] time_ordered(events, ev) && sorted_views(all_views(ev, cfg), det_views(r))
}

/// `e2` holds the events of `e1` in another order: its entry `k` agrees
/// by content with entry `perm[k]` of `e1`, and no entry of `e1` is used
/// twice.
pub open spec fn rearranged(e1: Seq<EventRecord>, e2: Seq<EventRecord>, perm: Seq<usize>) -> bool {
    &&& e2.len() == e1.len()
    &&& perm.len() == e1.len()
    &&& forall|k: int| 0 <= k < perm.len() ==> (#[trigger] perm[k] as int) < e1.len() && e2[k].same_as(e1[perm[k] as int])
    &&& forall|a: int, b: int| 0 <= a < b < perm.len() ==> #[trigger] perm[a] != #[trigger] perm[b]
}

/// No two events share both their time and their id.
pub open spec fn keys_distinct(e: Seq<EventRecord>) -> bool {
    forall|i: int, j: int| 0 <= i < j < e.len() ==> !same_key(#[trigger] e[i], #[trigger] e[j])
}

/// Detection does not depend on the order the events come in: over the
/// same events in another order, with no time and id shared by two events,
/// `detect_all` reports the same detections in the same order (and two
/// runs over the same events report alike).
pub proof fn lemma_detect_order_free(
    e1: Seq<EventRecord>,
    e2: Seq<EventRecord>,
    perm: Seq<usize>,
    cfg: DetectorConfig,
    r1: Seq<Detection>,
    r2: Seq<Detection>,
)
    requires
        rearranged(e1, e2, perm),
        keys_distinct(e1),
        e1.len() <= usize::MAX,
        r1.len() <= usize::MAX,
        forall|ev: Seq<EventRecord>| #[trigger] time_ordered(e1, ev) ==> follow_ready(ev, cfg),
        detected(e1, cfg, r1),
        detected(e2, cfg, r2),
    ensures
        det_views(r1) == det_views(r2),
{
    let n = e1.len() as int;
    let ev1 = choose|ev: Seq<EventRecord>| #[trigger] time_ordered(e1, ev) && sorted_views(all_views(ev, cfg), det_views(r1));
    let ev2 = choose|ev: Seq<EventRecord>| #[trigger] time_ordered(e2, ev) && sorted_views(all_views(ev, cfg), det_views(r2));
    let o1 = choose|order: Seq<usize>|
        {
            &&& order.len() == e1.len()
            &&& ev1.len() == e1.len()
            &&& forall|k: int| 0 <= k < order.len() ==> (#[trigger] order[k] as int) < e1.len()
            &&& forall|a: int, b: int|
                0 <= a < b < order.len() ==> {
                    ||| event_before(e1[#[trigger] order[a] as int], e1[#[trigger] order[b] as int])
                    ||| (!event_before(e1[order[b] as int], e1[order[a] as int]) && order[a] < order[b])
                }
            &&& forall|k: int| 0 <= k < ev1.len() ==> (#[trigger] ev1[k]).same_as(e1[order[k] as int])
        };
    let o2 = choose|order: Seq<usize>|
        {
            &&& order.len() == e2.len()
            &&& ev2.len() == e2.len()
            &&& forall|k: int| 0 <= k < order.len() ==> (#[trigger] order[k] as int) < e2.len()
            &&& forall|a: int, b: int|
                0 <= a < b < order.len() ==> {
                    ||| event_before(e2[#[trigger] order[a] as int], e2[#[trigger] order[b] as int])
                    ||| (!event_before(e2[order[b] as int], e2[order[a] as int]) && order[a] < order[b])
                }
            &&& forall|k: int| 0 <= k < ev2.len() ==> (#[trigger] ev2[k]).same_as(e2[order[k] as int])
        };
    let lt = |a: int, b: int| prec(e1, a, b);
    assert(strict_total(lt, n)) by {
        assert forall|a: int| 0 <= a < n implies !#[trigger] lt(a, a) by {
            lemma_prec_facts(e1, a, a, a);
        }
        assert forall|a: int, b: int, c: int|
            0 <= a < n && 0 <= b < n && 0 <= c < n && #[trigger] lt(a, b) && #[trigger] lt(b, c) implies lt(a, c) by {
            lemma_prec_facts(e1, a, b, c);
        }
        assert forall|a: int, b: int| 0 <= a < n && 0 <= b < n && a != b implies #[trigger] lt(a, b) || lt(b, a) by {
            lemma_prec_facts(e1, a, b, a);
        }
    }
    assert(listing_by(lt, n, o1)) by {
        assert forall|a: int, b: int| 0 <= a < b < o1.len() implies lt(#[trigger] o1[a] as int, #[trigger] o1[b] as int) by {
            assert(prec(e1, o1[a] as int, o1[b] as int));
        }
    }
    let o2p = Seq::new(n as nat, |k: int| perm[o2[k] as int]);
    assert(listing_by(lt, n, o2p)) by {
        assert forall|k: int| 0 <= k < o2p.len() implies (#[trigger] o2p[k] as int) < n by {
            assert((o2[k] as int) < n);
        }
        assert forall|a: int, b: int| 0 <= a < b < o2p.len() implies lt(#[trigger] o2p[a] as int, #[trigger] o2p[b] as int) by {
            let x = o2[a] as int;
            let y = o2[b] as int;
            let px = perm[x] as int;
            let py = perm[y] as int;
            assert(prec(e2, x, y));
            lemma_prec_facts(e2, x, y, x);
            assert(x != y);
            if x < y {
                assert(perm[x] != perm[y]);
            } else {
                assert(perm[y] != perm[x]);
            }
            assert(e2[x].same_as(e1[px]));
            assert(e2[y].same_as(e1[py]));
            if px < py {
                assert(!same_key(e1[px], e1[py]));
            } else {
                assert(!same_key(e1[py], e1[px]));
            }
            lemma_before_total(e1[px], e1[py]);
            lemma_prec_facts(e2, y, x, y);
        }
    }
    lemma_listing_by_unique(lt, n, o1, o2p);
    assert(same_events(ev1, ev2)) by {
        assert forall|k: int| 0 <= k < ev1.len() implies (#[trigger] ev1[k]).same_as(ev2[k]) by {
            assert(ev1[k].same_as(e1[o1[k] as int]));
            assert(ev2[k].same_as(e2[o2[k] as int]));
            assert(e2[o2[k] as int].same_as(e1[perm[o2[k] as int] as int]));
            assert(o1[k] == o2p[k]);
        }
    }
    lemma_all_views_same(ev1, ev2, cfg);
    assert(det_views(r1).len() == r1.len());
    lemma_sorted_views_unique(all_views(ev1, cfg), det_views(r1), det_views(r2));
}

} // verus!

verus! {

/// A successful sign-in of severity High or above.
pub open spec fn high_success(e: EventRecord) -> bool {
    e.outcome == Outcome::Success && e.severity.rank() >= Severity::High.rank()
}

proof fn lemma_evicted_within(ev: Seq<EventRecord>, win: Seq<int>, cutoff: Timestamp)
    ensures
        forall|x: int| evicted(ev, win, cutoff).contains(x) ==> win.contains(x),
    decreases win.len(),
{
    if win.len() > 0 && ev[win[0]].timestamp.lt(cutoff) {
        let rest = win.drop_first();
        lemma_evicted_within(ev, rest, cutoff);
        assert forall|x: int| rest.contains(x) implies win.contains(x) by {
            let t = choose|t: int| 0 <= t < rest.len() && rest[t] == x;
            assert(win[t + 1] == x);
        }
    }
}

/// Lateral movement counts only successful sign-ins of severity High or
/// above: every event in a lateral-movement window, and every event that
/// fires the rule, is one.
pub proof fn lemma_lateral_counts_high_successes(ev: Seq<EventRecord>, cfg: DetectorConfig, k: int)
    requires
        0 <= k <= ev.len(),
    ensures
        forall|key: Seq<char>, x: int|
            rule_state(WindowRule::Lateral, ev, cfg, k).windows.contains_key(key) && #[trigger] rule_state(
                WindowRule::Lateral,
                ev,
                cfg,
                k,
            ).windows[key].contains(x) ==> 0 <= x < k && high_success(ev[x]),
        forall|t: int|
            0 <= t < rule_state(WindowRule::Lateral, ev, cfg, k).hits.len() ==> {
                let h = #[trigger] rule_state(WindowRule::Lateral, ev, cfg, k).hits[t];
                &&& 0 <= h.0 < k
                &&& high_success(ev[h.0])
                &&& forall|x: int| h.1.contains(x) ==> 0 <= x < k && high_success(ev[x])
            },
    decreases k,
{
    if k > 0 {
        lemma_lateral_counts_high_successes(ev, cfg, k - 1);
        let rule = WindowRule::Lateral;
        let st = rule_state(rule, ev, cfg, k - 1);
        let nst = rule_state(rule, ev, cfg, k);
        let i = k - 1;
        let e = ev[i];
        if admits(rule, e) {
            let key = rule_key(rule, e);
            let win0 = if st.windows.contains_key(key) {
                st.windows[key]
            } else {
                Seq::empty()
            };
            let cutoff = cutoff_of(e.timestamp, span(rule, cfg));
            lemma_evicted_within(ev, win0, cutoff);
            let win = evicted(ev, win0, cutoff).push(i);
            assert forall|x: int| win.contains(x) implies 0 <= x < k && high_success(ev[x]) by {
                if x != i {
                    let t = choose|t: int| 0 <= t < win.len() && win[t] == x;
                    assert(evicted(ev, win0, cutoff)[t] == x);
                    assert(evicted(ev, win0, cutoff).contains(x));
                    assert(win0.contains(x));
                }
            }
            assert forall|key2: Seq<char>, x: int|
                nst.windows.contains_key(key2) && #[trigger] nst.windows[key2].contains(x) implies 0 <= x < k && high_success(
                ev[x],
            ) by {
                if key2 != key {
                    assert(st.windows.contains_key(key2) && st.windows[key2].contains(x));
                }
            }
            assert forall|t: int| 0 <= t < nst.hits.len() implies {
                let h = #[trigger] nst.hits[t];
                &&& 0 <= h.0 < k
                &&& high_success(ev[h.0])
                &&& forall|x: int| h.1.contains(x) ==> 0 <= x < k && high_success(ev[x])
            } by {
                if t < st.hits.len() {
                    assert(nst.hits[t] == st.hits[t]);
                }
            }
        } else {
            assert forall|key2: Seq<char>, x: int|
                nst.windows.contains_key(key2) && #[trigger] nst.windows[key2].contains(x) implies 0 <= x < k && high_success(
                ev[x],
            ) by {
                assert(st.windows.contains_key(key2) && st.windows[key2].contains(x));
            }
        }
    }
}

/// Without a successful sign-in of severity High or above among the
/// events, `detect_all` reports no lateral movement.
pub proof fn lemma_no_lateral_without_high_success(events: Seq<EventRecord>, cfg: DetectorConfig, r: Seq<Detection>)
    requires
        detected(events, cfg, r),
        forall|i: int| 0 <= i < events.len() ==> !high_success(#[trigger] events[i]),
    ensures
        forall|j: int| 0 <= j < r.len() ==> (#[trigger] r[j]).kind != DetectionKind::LateralMovement,
{
    let ev = choose|ev: Seq<EventRecord>| #[trigger] time_ordered(events, ev) && sorted_views(all_views(ev, cfg), det_views(r));
    let o = choose|order: Seq<usize>|
        {
            &&& order.len() == events.len()
            &&& ev.len() == events.len()
            &&& forall|k: int| 0 <= k < order.len() ==> (#[trigger] order[k] as int) < events.len()
            &&& forall|a: int, b: int|
                0 <= a < b < order.len() ==> {
                    ||| event_before(events[#[trigger] order[a] as int], events[#[trigger] order[b] as int])
                    ||| (!event_before(events[order[b] as int], events[order[a] as int]) && order[a] < order[b])
                }
            &&& forall|k: int| 0 <= k < ev.len() ==> (#[trigger] ev[k]).same_as(events[order[k] as int])
        };
    let n = ev.len() as int;
    lemma_lateral_counts_high_successes(ev, cfg, n);
    let hits = rule_state(WindowRule::Lateral, ev, cfg, n).hits;
    if hits.len() > 0 {
        let h = hits[0];
        assert(high_success(ev[h.0]));
        assert(ev[h.0].same_as(events[o[h.0] as int]));
        assert(!high_success(events[o[h.0] as int]));
    }
    assert(rule_views(WindowRule::Lateral, ev, cfg).len() == 0);
    let all = all_views(ev, cfg);
    let b = rule_views(WindowRule::Brute, ev, cfg);
    let s = rule_views(WindowRule::Spray, ev, cfg);
    let f = follow_views(ev, cfg);
    assert(all =~= b + s + f + rule_views(WindowRule::Lateral, ev, cfg));
    assert forall|t: int| 0 <= t < all.len() implies (#[trigger] all[t]).kind != DetectionKind::LateralMovement by {
        if t < b.len() {
            assert(all[t] == b[t]);
        } else if t < b.len() + s.len() {
            assert(all[t] == s[t - b.len()]);
        } else {
            assert(all[t] == f[t - b.len() - s.len()]);
        }
    }
    let dv = det_views(r);
    let q = choose|order: Seq<usize>|
        {
            &&& order.len() == all.len()
            &&& dv.len() == all.len()
            &&& forall|k: int| 0 <= k < order.len() ==> (#[trigger] order[k] as int) < all.len()
            &&& forall|a: int, b: int|
                0 <= a < b < order.len() ==> {
                    ||| starts_before(all[#[trigger] order[a] as int], all[#[trigger] order[b] as int])
                    ||| (!starts_before(all[order[b] as int], all[order[a] as int]) && order[a] < order[b])
                }
            &&& forall|k: int| 0 <= k < dv.len() ==> #[trigger] dv[k] == all[order[k] as int]
        };
    assert forall|j: int| 0 <= j < r.len() implies (#[trigger] r[j]).kind != DetectionKind::LateralMovement by {
        assert(dv[j] == r[j].view_of());
        assert(dv[j] == all[q[j] as int]);
    }
}

/// Every successful sign-in of severity High or above that names a user
/// and a host joins that user's lateral-movement window.
pub proof fn lemma_high_success_counts(ev: Seq<EventRecord>, cfg: DetectorConfig, i: int)
    requires
        0 <= i < ev.len(),
        high_success(ev[i]),
        ev[i].user is Some,
        ev[i].host is Some,
    ensures
        rule_state(WindowRule::Lateral, ev, cfg, i + 1).windows.contains_key(ev[i].user->Some_0@),
        rule_state(WindowRule::Lateral, ev, cfg, i + 1).windows[ev[i].user->Some_0@].contains(i),
{
    let rule = WindowRule::Lateral;
    let st = rule_state(rule, ev, cfg, i);
    let e = ev[i];
    assert(admits(rule, e));
    let key = rule_key(rule, e);
    let win0 = if st.windows.contains_key(key) {
        st.windows[key]
    } else {
        Seq::empty()
    };
    let win = evicted(ev, win0, cutoff_of(e.timestamp, span(rule, cfg))).push(i);
    assert(win[win.len() - 1] == i);
    assert(rule_state(rule, ev, cfg, i + 1).windows[key] == win);
}

} // verus!
