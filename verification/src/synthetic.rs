//! Deterministic synthetic authentication traffic, optionally seeded with
//! the attack patterns the detection rules look for.

use crate::event::{attr_views, attrs_sorted, same_view, EventRecord, Outcome, Severity};
use crate::sort::text_lt;
use crate::index::{events_in_order, lemma_stable_sort_unique, same_key, sort_events, stably_sorted, times_wf};
use crate::text::{chars_of, dec, hex_nat, push_dec, push_hex_u64, push_str, push_zero_padded, zero_pad};
use crate::time::{Timestamp, MAX_SECS, MIN_SECS};
use vstd::prelude::*;

verus! {

/// Which attack pattern, if any, is mixed into the generated traffic.
#[derive(Debug, Clone, Copy, PartialEq, Eq, Structural)]
pub enum Scenario {
    Baseline,
    BruteForce,
    PasswordSpray,
    LateralMovement,
    Mixed,
}

/// 2026-07-30T08:00:00Z, where generated traffic starts.
pub const BASE_SECS: i64 = 1785398400;

/// One step of the xorshift generator (shifts 13, 7, 17).
pub open spec fn xs_step(x: u64) -> u64 {
    let a = x ^ (x << 13u64);
    let b = a ^ (a >> 7u64);
    b ^ (b << 17u64)
}

/// The generator's state after `k` draws from `seed`; a zero seed starts
/// from one. Draw number `k` (from one) returns this state.
pub open spec fn draw(seed: u64, k: nat) -> u64
    decreases k,
{
    if k == 0 {
        if seed == 0 {
            1
        } else {
            seed
        }
    } else {
        xs_step(draw(seed, (k - 1) as nat))
    }
}

/// The position a draw selects in a list of `n` entries.
pub open spec fn pick_index(x: u64, n: nat) -> int {
    (x as usize) as int % (n as int)
}

pub open spec fn user_pool() -> Seq<Seq<char>> {
    seq!["ana"@, "marcos"@, "lucia"@, "diego"@, "svc-backup"@, "ines"@]
}

pub open spec fn host_pool() -> Seq<Seq<char>> {
    seq!["ws-014"@, "ws-022"@, "ws-031"@, "srv-files"@, "dc-01"@, "vpn-01"@]
}

pub open spec fn ip_pool() -> Seq<Seq<char>> {
    seq!["10.20.4.17"@, "10.20.4.22"@, "10.20.8.9"@, "198.51.100.42"@, "203.0.113.77"@]
}

pub open spec fn opt_is(o: Option<String>, v: Seq<char>) -> bool {
    match o {
        Some(s) => s@ == v,
        None => false,
    }
}

/// The attributes hold exactly the given key/value pairs, in order.
pub open spec fn attrs_are(attrs: Seq<(String, String)>, pairs: Seq<(Seq<char>, Seq<char>)>) -> bool {
    &&& attrs.len() == pairs.len()
    &&& forall|k: int| 0 <= k < attrs.len() ==> (#[trigger] attrs[k]).0@ == pairs[k].0 && attrs[k].1@ == pairs[k].1
}

/// `e` is background event number `i` of the traffic generated from
/// `seed`: it uses draws `5i + 1` to `5i + 5`.
pub open spec fn is_generated(e: EventRecord, seed: u64, i: int) -> bool {
    let d1 = draw(seed, (5 * i + 1) as nat);
    let d2 = draw(seed, (5 * i + 2) as nat);
    let d3 = draw(seed, (5 * i + 3) as nat);
    let d4 = draw(seed, (5 * i + 4) as nat);
    let d5 = draw(seed, (5 * i + 5) as nat);
    let success = d5 % 8 != 0;
    &&& e.id@ == "evt-"@ + zero_pad(hex_nat(seed as nat), 8) + "-"@ + zero_pad(dec(i as nat), 8)
    &&& e.timestamp.secs == BASE_SECS + 13 * i + d1 % 7
    &&& e.timestamp.nanos == 0
    &&& e.source@ == (if i % 5 == 0 { "vpn"@ } else { "windows-security"@ })
    &&& e.event_type@ == "authentication"@
    &&& opt_is(e.user, user_pool()[pick_index(d2, 6)])
    &&& opt_is(e.host, host_pool()[pick_index(d3, 6)])
    &&& opt_is(e.source_ip, ip_pool()[pick_index(d4, 5)])
    &&& e.outcome == (if success { Outcome::Success } else { Outcome::Failure })
    &&& e.severity == (if success { Severity::Info } else { Severity::Low })
    &&& e.message@ == (if success { "Interactive sign-in accepted"@ } else { "Invalid password"@ })
    &&& attrs_are(e.attributes@, seq![("synthetic"@, "true"@)])
}

/// `e` is an injected event with the given id, second, actors, outcome
/// and severity.
pub open spec fn is_anomaly(
    e: EventRecord,
    id: Seq<char>,
    secs: int,
    user: Seq<char>,
    host: Seq<char>,
    ip: Seq<char>,
    outcome: Outcome,
    severity: Severity,
) -> bool {
    &&& e.id@ == id
    &&& e.timestamp.secs == secs
    &&& e.timestamp.nanos == 0
    &&& e.source@ == "windows-security"@
    &&& e.event_type@ == "authentication"@
    &&& opt_is(e.user, user)
    &&& opt_is(e.host, host)
    &&& opt_is(e.source_ip, ip)
    &&& e.outcome == outcome
    &&& e.severity == severity
    &&& e.message@ == (if outcome == Outcome::Success {
        "Sign-in accepted after failures"@
    } else {
        "Invalid password"@
    })
    &&& attrs_are(e.attributes@, seq![("scenario_marker"@, "true"@), ("synthetic"@, "true"@)])
}

/// Injected event `k` of a brute-force burst starting at `start`: seven
/// failures 18 seconds apart, then a success.
pub open spec fn brute_event(e: EventRecord, seed: u64, start: int, k: int) -> bool {
    if k < 7 {
        is_anomaly(
            e,
            "scenario-"@ + dec(seed as nat) + "-brute-"@ + dec(k as nat),
            start + 30 + 18 * k,
            "ana"@,
            "ws-014"@,
            "198.51.100.42"@,
            Outcome::Failure,
            Severity::High,
        )
    } else {
        is_anomaly(
            e,
            "scenario-"@ + dec(seed as nat) + "-brute-success"@,
            start + 180,
            "ana"@,
            "ws-014"@,
            "198.51.100.42"@,
            Outcome::Success,
            Severity::Critical,
        )
    }
}

pub open spec fn spray_pool() -> Seq<Seq<char>> {
    seq!["ana"@, "marcos"@, "lucia"@, "diego"@, "ines"@, "svc-backup"@]
}

/// Injected event `k` of a password spray: one failure per user, 25
/// seconds apart, from one address.
pub open spec fn spray_event(e: EventRecord, seed: u64, start: int, k: int) -> bool {
    is_anomaly(
        e,
        "scenario-"@ + dec(seed as nat) + "-spray-"@ + dec(k as nat),
        start + 25 * k,
        spray_pool()[k],
        "vpn-01"@,
        "203.0.113.77"@,
        Outcome::Failure,
        Severity::High,
    )
}

pub open spec fn lateral_pool() -> Seq<Seq<char>> {
    seq!["ws-022"@, "srv-files"@, "dc-01"@]
}

/// Injected event `k` of lateral movement: one account reaching three
/// hosts, 90 seconds apart.
pub open spec fn lateral_event(e: EventRecord, seed: u64, start: int, k: int) -> bool {
    is_anomaly(
        e,
        "scenario-"@ + dec(seed as nat) + "-lateral-"@ + dec(k as nat),
        start + 90 * k,
        "svc-backup"@,
        lateral_pool()[k],
        "10.20.8.9"@,
        Outcome::Success,
        Severity::High,
    )
}

/// `s` is what the scenario injects, in injection order.
pub open spec fn injected(s: Seq<EventRecord>, seed: u64, scenario: Scenario) -> bool {
    match scenario {
        Scenario::Baseline => s.len() == 0,
        Scenario::BruteForce => s.len() == 8 && forall|k: int| 0 <= k < 8 ==> brute_event(#[trigger] s[k], seed, BASE_SECS as int, k),
        Scenario::PasswordSpray => s.len() == 6 && forall|k: int| 0 <= k < 6 ==> spray_event(#[trigger] s[k], seed, BASE_SECS as int, k),
        Scenario::LateralMovement => s.len() == 3 && forall|k: int| 0 <= k < 3 ==> lateral_event(#[trigger] s[k], seed, BASE_SECS as int, k),
        Scenario::Mixed => {
            &&& s.len() == 17
            &&& forall|k: int| 0 <= k < 8 ==> brute_event(#[trigger] s[k], seed, BASE_SECS as int, k)
            &&& forall|k: int| 8 <= k < 14 ==> spray_event(#[trigger] s[k], seed, BASE_SECS + 1500, k - 8)
            &&& forall|k: int| 14 <= k < 17 ==> lateral_event(#[trigger] s[k], seed, BASE_SECS + 3000, k - 14)
        },
    }
}

/// Before sorting: `count` background events, then the injected ones.
pub open spec fn raw_traffic(all: Seq<EventRecord>, count: nat, seed: u64, scenario: Scenario) -> bool {
    &&& all.len() >= count
    &&& forall|i: int| 0 <= i < count ==> is_generated(#[trigger] all[i], seed, i)
    &&& injected(all.skip(count as int), seed, scenario)
}

/// `r` is what generation gives: the background and injected events,
/// stably sorted by time and id, cut back to `count`, in order.
pub open spec fn generated_as(r: Seq<EventRecord>, count: nat, seed: u64, scenario: Scenario) -> bool {
    &&& r.len() == count
    &&& events_in_order(r)
    &&& exists|all: Seq<EventRecord>, sorted: Seq<EventRecord>|
        all.len() <= usize::MAX && raw_traffic(all, count, seed, scenario) && stably_sorted(all, sorted) && r == sorted.take(
            count as int,
        )
}

/// The generated instants stay in the range `chrono` represents.
pub open spec fn generation_fits(count: nat) -> bool {
    count == 0 || BASE_SECS + 13 * (count - 1) + 6 <= MAX_SECS
}

struct XorShift64(u64);

impl XorShift64 {
    fn new(seed: u64) -> (r: XorShift64)
        ensures
            r.0 == draw(seed, 0),
    {
        XorShift64(if seed == 0 {
            1
        } else {
            seed
        })
    }

    fn next(&mut self) -> (r: u64)
        ensures
            r == xs_step(old(self).0),
            final(self).0 == r,
    {
        let mut value = self.0;
        value ^= value << 13;
        value ^= value >> 7;
        value ^= value << 17;
        self.0 = value;
        value
    }

    fn pick<'a>(&mut self, values: &'a [&'a str]) -> (r: &'a str)
        requires
            values.len() > 0,
        ensures
            final(self).0 == xs_step(old(self).0),
            r == values@[pick_index(final(self).0, values@.len())],
    {
        let x = self.next();
        values[(x as usize) % values.len()]
    }
}

/// An injected event.
fn anomaly_event(
    id: String,
    timestamp: Timestamp,
    user: &str,
    host: &str,
    ip: &str,
    outcome: Outcome,
    severity: Severity,
) -> (e: EventRecord)
    requires
        timestamp.nanos == 0,
    ensures
        is_anomaly(e, id@, timestamp.secs as int, user@, host@, ip@, outcome, severity),
{
    let message = match outcome {
        Outcome::Success => String::from_str("Sign-in accepted after failures"),
        _ => String::from_str("Invalid password"),
    };
    let mut attributes: Vec<(String, String)> = Vec::new();
    attributes.push((String::from_str("scenario_marker"), String::from_str("true")));
    attributes.push((String::from_str("synthetic"), String::from_str("true")));
    EventRecord {
        id,
        timestamp,
        source: String::from_str("windows-security"),
        event_type: String::from_str("authentication"),
        user: Some(String::from_str(user)),
        host: Some(String::from_str(host)),
        source_ip: Some(String::from_str(ip)),
        outcome,
        severity,
        message,
        attributes,
    }
}

/// `"scenario-{seed}-{kind}"` followed by the decimal `n`.
fn scenario_id(seed: u64, kind: &str, n: u64) -> (id: String)
    ensures
        id@ == "scenario-"@ + dec(seed as nat) + kind@ + dec(n as nat),
{
    let mut id = String::from_str("scenario-");
    push_dec(&mut id, seed);
    push_str(&mut id, kind);
    push_dec(&mut id, n);
    assert(id@ =~= "scenario-"@ + dec(seed as nat) + kind@ + dec(n as nat));
    id
}

/// Seven failed sign-ins to one account from one address, then a success.
fn inject_brute_force(events: &mut Vec<EventRecord>, start: Timestamp, seed: u64)
    requires
        start.nanos == 0,
        0 <= start.secs,
        start.secs + 180 <= MAX_SECS,
    ensures
        final(events)@.len() == old(events)@.len() + 8,
        final(events)@.subrange(0, old(events)@.len() as int) == old(events)@,
        forall|k: int| 0 <= k < 8 ==> brute_event(#[trigger] final(events)@[old(events)@.len() + k], seed, start.secs as int, k),
{
    let ghost n0 = events@.len();
    let ghost e0 = events@;
    let mut attempt: u64 = 0;
    while attempt < 7
        invariant
            attempt <= 7,
            start.nanos == 0,
            0 <= start.secs,
            start.secs + 180 <= MAX_SECS,
            events@.len() == n0 + attempt,
            events@.subrange(0, n0 as int) == e0,
            forall|k: int| 0 <= k < attempt ==> brute_event(#[trigger] events@[n0 + k], seed, start.secs as int, k),
        decreases 7 - attempt,
    {
        let id = scenario_id(seed, "-brute-", attempt);
        let at = Timestamp { secs: start.secs + 30 + (attempt as i64) * 18, nanos: 0 };
        let e = anomaly_event(id, at, "ana", "ws-014", "198.51.100.42", Outcome::Failure, Severity::High);
        let ghost before = events@;
        events.push(e);
        proof {
            assert(events@.subrange(0, n0 as int) =~= before.subrange(0, n0 as int));
            assert forall|k: int| 0 <= k < attempt + 1 implies brute_event(#[trigger] events@[n0 + k], seed, start.secs as int, k) by {
                if k < attempt {
                    assert(events@[n0 + k] == before[n0 + k]);
                }
            }
        }
        attempt += 1;
    }
    let mut id = String::from_str("scenario-");
    push_dec(&mut id, seed);
    push_str(&mut id, "-brute-success");
    assert(id@ =~= "scenario-"@ + dec(seed as nat) + "-brute-success"@);
    let at = Timestamp { secs: start.secs + 180, nanos: 0 };
    let e = anomaly_event(id, at, "ana", "ws-014", "198.51.100.42", Outcome::Success, Severity::Critical);
    let ghost before = events@;
    events.push(e);
    proof {
        assert(events@.subrange(0, n0 as int) =~= before.subrange(0, n0 as int));
        assert forall|k: int| 0 <= k < 8 implies brute_event(#[trigger] events@[n0 + k], seed, start.secs as int, k) by {
            if k < 7 {
                assert(events@[n0 + k] == before[n0 + k]);
            }
        }
    }
}

/// One failed sign-in per account, all from one address.
fn inject_spray(events: &mut Vec<EventRecord>, start: Timestamp, seed: u64)
    requires
        start.nanos == 0,
        0 <= start.secs,
        start.secs + 125 <= MAX_SECS,
    ensures
        final(events)@.len() == old(events)@.len() + 6,
        final(events)@.subrange(0, old(events)@.len() as int) == old(events)@,
        forall|k: int| 0 <= k < 6 ==> spray_event(#[trigger] final(events)@[old(events)@.len() + k], seed, start.secs as int, k),
{
    let users: [&str; 6] = ["ana", "marcos", "lucia", "diego", "ines", "svc-backup"];
    assert(users@.map_values(|u: &str| u@) =~= spray_pool());
    let ghost n0 = events@.len();
    let ghost e0 = events@;
    let mut attempt: usize = 0;
    while attempt < 6
        invariant
            attempt <= 6,
            start.nanos == 0,
            0 <= start.secs,
            start.secs + 125 <= MAX_SECS,
            users@.map_values(|u: &str| u@) == spray_pool(),
            users@.len() == 6,
            events@.len() == n0 + attempt,
            events@.subrange(0, n0 as int) == e0,
            forall|k: int| 0 <= k < attempt ==> spray_event(#[trigger] events@[n0 + k], seed, start.secs as int, k),
        decreases 6 - attempt,
    {
        let id = scenario_id(seed, "-spray-", attempt as u64);
        let at = Timestamp { secs: start.secs + (attempt as i64) * 25, nanos: 0 };
        assert(users@[attempt as int]@ == spray_pool()[attempt as int]);
        let e = anomaly_event(id, at, users[attempt], "vpn-01", "203.0.113.77", Outcome::Failure, Severity::High);
        let ghost before = events@;
        events.push(e);
        proof {
            assert(events@.subrange(0, n0 as int) =~= before.subrange(0, n0 as int));
            assert forall|k: int| 0 <= k < attempt + 1 implies spray_event(#[trigger] events@[n0 + k], seed, start.secs as int, k) by {
                if k < attempt {
                    assert(events@[n0 + k] == before[n0 + k]);
                }
            }
        }
        attempt += 1;
    }
}

/// One service account signing in to three hosts in turn.
fn inject_lateral(events: &mut Vec<EventRecord>, start: Timestamp, seed: u64)
    requires
        start.nanos == 0,
        0 <= start.secs,
        start.secs + 180 <= MAX_SECS,
    ensures
        final(events)@.len() == old(events)@.len() + 3,
        final(events)@.subrange(0, old(events)@.len() as int) == old(events)@,
        forall|k: int| 0 <= k < 3 ==> lateral_event(#[trigger] final(events)@[old(events)@.len() + k], seed, start.secs as int, k),
{
    let hosts: [&str; 3] = ["ws-022", "srv-files", "dc-01"];
    assert(hosts@.map_values(|h: &str| h@) =~= lateral_pool());
    let ghost n0 = events@.len();
    let ghost e0 = events@;
    let mut step: usize = 0;
    while step < 3
        invariant
            step <= 3,
            start.nanos == 0,
            0 <= start.secs,
            start.secs + 180 <= MAX_SECS,
            hosts@.map_values(|h: &str| h@) == lateral_pool(),
            hosts@.len() == 3,
            events@.len() == n0 + step,
            events@.subrange(0, n0 as int) == e0,
            forall|k: int| 0 <= k < step ==> lateral_event(#[trigger] events@[n0 + k], seed, start.secs as int, k),
        decreases 3 - step,
    {
        let id = scenario_id(seed, "-lateral-", step as u64);
        let at = Timestamp { secs: start.secs + (step as i64) * 90, nanos: 0 };
        assert(hosts@[step as int]@ == lateral_pool()[step as int]);
        let e = anomaly_event(id, at, "svc-backup", hosts[step], "10.20.8.9", Outcome::Success, Severity::High);
        let ghost before = events@;
        events.push(e);
        proof {
            assert(events@.subrange(0, n0 as int) =~= before.subrange(0, n0 as int));
            assert forall|k: int| 0 <= k < step + 1 implies lateral_event(#[trigger] events@[n0 + k], seed, start.secs as int, k) by {
                if k < step {
                    assert(events@[n0 + k] == before[n0 + k]);
                }
            }
        }
        step += 1;
    }
}

/// Appends `digits` rendered by `render`, zero-padded to eight characters.
fn push_padded8(id: &mut String, digits: String)
    ensures
        final(id)@ == old(id)@ + zero_pad(digits@, 8),
{
    let cs = chars_of(digits.as_str());
    push_zero_padded(id, cs.as_slice(), 8);
}

/// `"evt-{seed:08x}-{index:08}"`.
fn background_id(seed: u64, index: u64) -> (id: String)
    ensures
        id@ == "evt-"@ + zero_pad(hex_nat(seed as nat), 8) + "-"@ + zero_pad(dec(index as nat), 8),
{
    let mut id = String::from_str("evt-");
    let mut hx = String::new();
    push_hex_u64(&mut hx, seed);
    push_padded8(&mut id, hx);
    push_str(&mut id, "-");
    let mut dx = String::new();
    push_dec(&mut dx, index);
    push_padded8(&mut id, dx);
    assert(id@ =~= "evt-"@ + zero_pad(hex_nat(seed as nat), 8) + "-"@ + zero_pad(dec(index as nat), 8));
    id
}

/// `count` background sign-ins generated from `seed`, with the scenario's
/// attack pattern mixed in, ordered by time and then id, and cut back to
/// `count` events. The same arguments always give the same events.
pub fn generate_events(count: usize, seed: u64, scenario: Scenario) -> (r: Vec<EventRecord>)
    requires
        generation_fits(count as nat),
    ensures
        generated_as(r@, count as nat, seed, scenario),
        forall|i: int| 0 <= i < r@.len() ==> attrs_sorted(#[trigger] r@[i].attributes@),
{
    let users: [&str; 6] = ["ana", "marcos", "lucia", "diego", "svc-backup", "ines"];
    let hosts: [&str; 6] = ["ws-014", "ws-022", "ws-031", "srv-files", "dc-01", "vpn-01"];
    let ips: [&str; 5] = ["10.20.4.17", "10.20.4.22", "10.20.8.9", "198.51.100.42", "203.0.113.77"];
    assert(users@.map_values(|u: &str| u@) =~= user_pool());
    assert(hosts@.map_values(|u: &str| u@) =~= host_pool());
    assert(ips@.map_values(|u: &str| u@) =~= ip_pool());
    let mut rng = XorShift64::new(seed);
    let mut events: Vec<EventRecord> = Vec::new();
    let mut index: usize = 0;
    while index < count
        invariant
            index <= count,
            generation_fits(count as nat),
            events@.len() == index,
            rng.0 == draw(seed, (5 * index) as nat),
            users@.map_values(|u: &str| u@) == user_pool(),
            hosts@.map_values(|u: &str| u@) == host_pool(),
            ips@.map_values(|u: &str| u@) == ip_pool(),
            users@.len() == 6,
            hosts@.len() == 6,
            ips@.len() == 5,
            forall|i: int| 0 <= i < index ==> is_generated(#[trigger] events@[i], seed, i),
        decreases count - index,
    {
        let ghost i = index as int;
        assert(draw(seed, (5 * i + 1) as nat) == xs_step(draw(seed, (5 * i) as nat)));
        assert(draw(seed, (5 * i + 2) as nat) == xs_step(draw(seed, (5 * i + 1) as nat)));
        assert(draw(seed, (5 * i + 3) as nat) == xs_step(draw(seed, (5 * i + 2) as nat)));
        assert(draw(seed, (5 * i + 4) as nat) == xs_step(draw(seed, (5 * i + 3) as nat)));
        assert(draw(seed, (5 * i + 5) as nat) == xs_step(draw(seed, (5 * i + 4) as nat)));
        let d1 = rng.next();
        let secs: i64 = BASE_SECS + (index as i64) * 13 + ((d1 % 7) as i64);
        let u = rng.pick(users.as_slice());
        let h = rng.pick(hosts.as_slice());
        let a = rng.pick(ips.as_slice());
        let d5 = rng.next();
        let success = d5 % 8 != 0;
        assert(u@ == user_pool()[pick_index(draw(seed, (5 * i + 2) as nat), 6)]);
        assert(h@ == host_pool()[pick_index(draw(seed, (5 * i + 3) as nat), 6)]);
        assert(a@ == ip_pool()[pick_index(draw(seed, (5 * i + 4) as nat), 5)]);
        let mut attributes: Vec<(String, String)> = Vec::new();
        attributes.push((String::from_str("synthetic"), String::from_str("true")));
        let e = EventRecord {
            id: background_id(seed, index as u64),
            timestamp: Timestamp { secs, nanos: 0 },
            source: if index % 5 == 0 {
                String::from_str("vpn")
            } else {
                String::from_str("windows-security")
            },
            event_type: String::from_str("authentication"),
            user: Some(String::from_str(u)),
            host: Some(String::from_str(h)),
            source_ip: Some(String::from_str(a)),
            outcome: if success {
                Outcome::Success
            } else {
                Outcome::Failure
            },
            severity: if success {
                Severity::Info
            } else {
                Severity::Low
            },
            message: if success {
                String::from_str("Interactive sign-in accepted")
            } else {
                String::from_str("Invalid password")
            },
            attributes,
        };
        let ghost before = events@;
        events.push(e);
        proof {
            assert(is_generated(events@[i], seed, i));
            assert forall|j: int| 0 <= j < index + 1 implies is_generated(#[trigger] events@[j], seed, j) by {
                if j < i {
                    assert(events@[j] == before[j]);
                }
            }
        }
        index += 1;
    }
    let ghost background = events@;
    let base = Timestamp { secs: BASE_SECS, nanos: 0 };
    match scenario {
        Scenario::Baseline => {},
        Scenario::BruteForce => inject_brute_force(&mut events, base, seed),
        Scenario::PasswordSpray => inject_spray(&mut events, base, seed),
        Scenario::LateralMovement => inject_lateral(&mut events, base, seed),
        Scenario::Mixed => {
            inject_brute_force(&mut events, base, seed);
            let ghost after_brute = events@;
            inject_spray(&mut events, Timestamp { secs: BASE_SECS + 1500, nanos: 0 }, seed);
            let ghost after_spray = events@;
            inject_lateral(&mut events, Timestamp { secs: BASE_SECS + 3000, nanos: 0 }, seed);
            proof {
                let n = count as int;
                let tail = events@.skip(n);
                assert forall|k: int| 0 <= k < 8 implies brute_event(#[trigger] tail[k], seed, BASE_SECS as int, k) by {
                    assert(after_spray.subrange(0, after_brute.len() as int)[n + k] == after_brute[n + k]);
                    assert(events@.subrange(0, after_spray.len() as int)[n + k] == after_spray[n + k]);
                }
                assert forall|k: int| 8 <= k < 14 implies spray_event(#[trigger] tail[k], seed, BASE_SECS + 1500, k - 8) by {
                    assert(events@.subrange(0, after_spray.len() as int)[n + k] == after_spray[n + k]);
                    assert(after_spray[after_brute.len() + (k - 8)] == after_spray[n + k]);
                }
                assert forall|k: int| 14 <= k < 17 implies lateral_event(#[trigger] tail[k], seed, BASE_SECS + 3000, k - 14) by {
                    assert(events@[after_spray.len() + (k - 14)] == events@[n + k]);
                }
            }
        },
    }
    let ghost all = events@;
    proof {
        assert(all.subrange(0, count as int) == background);
        assert forall|i: int| 0 <= i < count implies is_generated(#[trigger] all[i], seed, i) by {
            assert(all.subrange(0, count as int)[i] == all[i]);
        }
        let tail = all.skip(count as int);
        match scenario {
            Scenario::Baseline => {},
            Scenario::BruteForce => {
                assert forall|k: int| 0 <= k < 8 implies brute_event(#[trigger] tail[k], seed, BASE_SECS as int, k) by {
                    assert(tail[k] == all[count + k]);
                }
            },
            Scenario::PasswordSpray => {
                assert forall|k: int| 0 <= k < 6 implies spray_event(#[trigger] tail[k], seed, BASE_SECS as int, k) by {
                    assert(tail[k] == all[count + k]);
                }
            },
            Scenario::LateralMovement => {
                assert forall|k: int| 0 <= k < 3 implies lateral_event(#[trigger] tail[k], seed, BASE_SECS as int, k) by {
                    assert(tail[k] == all[count + k]);
                }
            },
            Scenario::Mixed => {},
        }
        assert(raw_traffic(all, count as nat, seed, scenario));
    }
    let mut sorted = sort_events(events);
    let ghost sv = sorted@;
    sorted.truncate(count);
    proof {
        assert(sorted@ =~= sv.take(count as int));
        let order = choose|order: Seq<usize>| {
            &&& order.len() == all.len()
            &&& sv.len() == all.len()
            &&& forall|k: int| 0 <= k < order.len() ==> (#[trigger] order[k] as int) < all.len()
            &&& forall|a: int, b: int|
                0 <= a < b < order.len() ==> {
                    ||| crate::index::event_before(all[#[trigger] order[a] as int], all[#[trigger] order[b] as int])
                    ||| (!crate::index::event_before(all[order[b] as int], all[order[a] as int]) && order[a] < order[b])
                }
            &&& forall|k: int| 0 <= k < sv.len() ==> #[trigger] sv[k] == all[order[k] as int]
        };
        assert forall|i: int| 0 <= i < sorted@.len() implies attrs_sorted(#[trigger] sorted@[i].attributes@) by {
            assert(sorted@[i] == sv[i]);
            assert(sv[i] == all[order[i] as int]);
            lemma_made_attrs_sorted(sv[i], seed, count as nat, scenario, all, order[i] as int);
        }
        assert forall|i: int, j: int| 0 <= i < j < sorted@.len() implies !crate::index::event_before(#[trigger] sorted@[j], #[trigger] sorted@[i]) by {
            assert(sorted@[i] == sv[i]);
            assert(sorted@[j] == sv[j]);
        }
    }
    sorted
}

/// The generator's attribute lists have strictly increasing keys.
proof fn lemma_made_attrs_sorted(e: EventRecord, seed: u64, count: nat, scenario: Scenario, all: Seq<EventRecord>, j: int)
    requires
        raw_traffic(all, count, seed, scenario),
        0 <= j < all.len(),
        e == all[j],
    ensures
        attrs_sorted(e.attributes@),
{
    if j < count {
        assert(is_generated(all[j], seed, j));
    } else {
        let tail = all.skip(count as int);
        let k = j - count;
        assert(tail[k] == all[j]);
        match scenario {
            Scenario::Baseline => {},
            Scenario::BruteForce => assert(brute_event(tail[k], seed, BASE_SECS as int, k)),
            Scenario::PasswordSpray => assert(spray_event(tail[k], seed, BASE_SECS as int, k)),
            Scenario::LateralMovement => assert(lateral_event(tail[k], seed, BASE_SECS as int, k)),
            Scenario::Mixed => {
                if k < 8 {
                    assert(brute_event(tail[k], seed, BASE_SECS as int, k));
                } else if k < 14 {
                    assert(spray_event(tail[k], seed, BASE_SECS + 1500, k - 8));
                } else {
                    assert(lateral_event(tail[k], seed, BASE_SECS + 3000, k - 14));
                }
            },
        }
        let marker = seq![("scenario_marker"@, "true"@), ("synthetic"@, "true"@)];
        assert(attrs_are(e.attributes@, marker));
        reveal_strlit("scenario_marker");
        reveal_strlit("synthetic");
        assert("scenario_marker"@.drop_first()[0] == 'c');
        assert("synthetic"@.drop_first()[0] == 'y');
        assert(text_lt("scenario_marker"@.drop_first(), "synthetic"@.drop_first()));
        assert(text_lt("scenario_marker"@, "synthetic"@));
        assert(text_lt(e.attributes@[0].0@, e.attributes@[1].0@));
    }
}

proof fn lemma_attrs_same(a: Seq<(String, String)>, b: Seq<(String, String)>, pairs: Seq<(Seq<char>, Seq<char>)>)
    requires
        attrs_are(a, pairs),
        attrs_are(b, pairs),
    ensures
        attr_views(a) == attr_views(b),
{
    assert(attr_views(a) =~= attr_views(b)) by {
        assert forall|k: int| 0 <= k < a.len() implies #[trigger] attr_views(a)[k] == attr_views(b)[k] by {
            assert(a[k].0@ == pairs[k].0 && b[k].0@ == pairs[k].0);
            assert(a[k].1@ == pairs[k].1 && b[k].1@ == pairs[k].1);
        }
    }
}

proof fn lemma_generated_same(a: EventRecord, b: EventRecord, seed: u64, i: int)
    requires
        is_generated(a, seed, i),
        is_generated(b, seed, i),
    ensures
        same_view(a, b),
{
    lemma_attrs_same(a.attributes@, b.attributes@, seq![("synthetic"@, "true"@)]);
}

proof fn lemma_anomaly_same(
    a: EventRecord,
    b: EventRecord,
    id: Seq<char>,
    secs: int,
    user: Seq<char>,
    host: Seq<char>,
    ip: Seq<char>,
    outcome: Outcome,
    severity: Severity,
)
    requires
        is_anomaly(a, id, secs, user, host, ip, outcome, severity),
        is_anomaly(b, id, secs, user, host, ip, outcome, severity),
    ensures
        same_view(a, b),
{
    lemma_attrs_same(a.attributes@, b.attributes@, seq![("scenario_marker"@, "true"@), ("synthetic"@, "true"@)]);
}

proof fn lemma_brute_same(a: EventRecord, b: EventRecord, seed: u64, start: int, k: int)
    requires
        brute_event(a, seed, start, k),
        brute_event(b, seed, start, k),
    ensures
        same_view(a, b),
{
    if k < 7 {
        lemma_anomaly_same(
            a,
            b,
            "scenario-"@ + dec(seed as nat) + "-brute-"@ + dec(k as nat),
            start + 30 + 18 * k,
            "ana"@,
            "ws-014"@,
            "198.51.100.42"@,
            Outcome::Failure,
            Severity::High,
        );
    } else {
        lemma_anomaly_same(
            a,
            b,
            "scenario-"@ + dec(seed as nat) + "-brute-success"@,
            start + 180,
            "ana"@,
            "ws-014"@,
            "198.51.100.42"@,
            Outcome::Success,
            Severity::Critical,
        );
    }
}

proof fn lemma_spray_same(a: EventRecord, b: EventRecord, seed: u64, start: int, k: int)
    requires
        spray_event(a, seed, start, k),
        spray_event(b, seed, start, k),
    ensures
        same_view(a, b),
{
    lemma_anomaly_same(
        a,
        b,
        "scenario-"@ + dec(seed as nat) + "-spray-"@ + dec(k as nat),
        start + 25 * k,
        spray_pool()[k],
        "vpn-01"@,
        "203.0.113.77"@,
        Outcome::Failure,
        Severity::High,
    );
}

proof fn lemma_lateral_same(a: EventRecord, b: EventRecord, seed: u64, start: int, k: int)
    requires
        lateral_event(a, seed, start, k),
        lateral_event(b, seed, start, k),
    ensures
        same_view(a, b),
{
    lemma_anomaly_same(
        a,
        b,
        "scenario-"@ + dec(seed as nat) + "-lateral-"@ + dec(k as nat),
        start + 90 * k,
        "svc-backup"@,
        lateral_pool()[k],
        "10.20.8.9"@,
        Outcome::Success,
        Severity::High,
    );
}

proof fn lemma_raw_same(a: Seq<EventRecord>, b: Seq<EventRecord>, count: nat, seed: u64, scenario: Scenario)
    requires
        raw_traffic(a, count, seed, scenario),
        raw_traffic(b, count, seed, scenario),
    ensures
        a.len() == b.len(),
        forall|i: int| 0 <= i < a.len() ==> same_view(#[trigger] a[i], b[i]),
{
    let ta = a.skip(count as int);
    let tb = b.skip(count as int);
    assert(a.len() == b.len());
    assert forall|i: int| 0 <= i < a.len() implies same_view(#[trigger] a[i], b[i]) by {
        if i < count {
            lemma_generated_same(a[i], b[i], seed, i);
        } else {
            let k = i - count;
            assert(ta[k] == a[i] && tb[k] == b[i]);
            match scenario {
                Scenario::Baseline => {},
                Scenario::BruteForce => lemma_brute_same(ta[k], tb[k], seed, BASE_SECS as int, k),
                Scenario::PasswordSpray => lemma_spray_same(ta[k], tb[k], seed, BASE_SECS as int, k),
                Scenario::LateralMovement => lemma_lateral_same(ta[k], tb[k], seed, BASE_SECS as int, k),
                Scenario::Mixed => {
                    if k < 8 {
                        lemma_brute_same(ta[k], tb[k], seed, BASE_SECS as int, k);
                    } else if k < 14 {
                        lemma_spray_same(ta[k], tb[k], seed, BASE_SECS + 1500, k - 8);
                    } else {
                        lemma_lateral_same(ta[k], tb[k], seed, BASE_SECS + 3000, k - 14);
                    }
                },
            }
        }
    }
}

/// Generation is deterministic: the same count, seed and scenario give the
/// same events, field by field.
pub proof fn lemma_generation_deterministic(
    count: nat,
    seed: u64,
    scenario: Scenario,
    r1: Seq<EventRecord>,
    r2: Seq<EventRecord>,
)
    requires
        generated_as(r1, count, seed, scenario),
        generated_as(r2, count, seed, scenario),
    ensures
        r1.len() == r2.len(),
        forall|k: int| 0 <= k < r1.len() ==> same_view(#[trigger] r1[k], r2[k]),
{
    let (all1, sorted1) = choose|all: Seq<EventRecord>, sorted: Seq<EventRecord>|
        all.len() <= usize::MAX && raw_traffic(all, count, seed, scenario) && stably_sorted(all, sorted) && r1 == sorted.take(
            count as int,
        );
    let (all2, sorted2) = choose|all: Seq<EventRecord>, sorted: Seq<EventRecord>|
        all.len() <= usize::MAX && raw_traffic(all, count, seed, scenario) && stably_sorted(all, sorted) && r2 == sorted.take(
            count as int,
        );
    lemma_raw_same(all1, all2, count, seed, scenario);
    assert forall|i: int| 0 <= i < all1.len() implies same_key(#[trigger] all1[i], all2[i]) by {
        assert(same_view(all1[i], all2[i]));
    }
    lemma_stable_sort_unique(all1, all2, sorted1, sorted2);
    let order = choose|order: Seq<usize>|
        #![trigger order.len()]
        order.len() == sorted1.len() && forall|k: int|
            0 <= k < sorted1.len() ==> (#[trigger] order[k] as int) < all1.len() && sorted1[k] == all1[order[k] as int]
                && sorted2[k] == all2[order[k] as int];
    assert forall|k: int| 0 <= k < r1.len() implies same_view(#[trigger] r1[k], r2[k]) by {
        assert(r1[k] == sorted1[k]);
        assert(r2[k] == sorted2[k]);
        assert((order[k] as int) < all1.len());
        assert(same_view(all1[order[k] as int], all2[order[k] as int]));
    }
}

/// Every generated instant is one `chrono` represents.
pub proof fn lemma_generated_times(r: Seq<EventRecord>, count: nat, seed: u64, scenario: Scenario)
    requires
        generated_as(r, count, seed, scenario),
        generation_fits(count),
    ensures
        times_wf(r),
{
    let (all, sorted) = choose|all: Seq<EventRecord>, sorted: Seq<EventRecord>|
        all.len() <= usize::MAX && raw_traffic(all, count, seed, scenario) && stably_sorted(all, sorted) && r == sorted.take(
            count as int,
        );
    assert(times_wf(all)) by {
        let tail = all.skip(count as int);
        assert forall|i: int| 0 <= i < all.len() implies (#[trigger] all[i]).timestamp.wf() by {
            if i < count {
                assert(is_generated(all[i], seed, i));
            } else {
                let k = i - count;
                assert(tail[k] == all[i]);
            }
        }
    }
    let order = choose|order: Seq<usize>|
        {
            &&& order.len() == all.len()
            &&& sorted.len() == all.len()
            &&& forall|k: int| 0 <= k < order.len() ==> (#[trigger] order[k] as int) < all.len()
            &&& forall|a: int, b: int|
                0 <= a < b < order.len() ==> {
                    ||| crate::index::event_before(all[#[trigger] order[a] as int], all[#[trigger] order[b] as int])
                    ||| (!crate::index::event_before(all[order[b] as int], all[order[a] as int]) && order[a] < order[b])
                }
            &&& forall|k: int| 0 <= k < sorted.len() ==> #[trigger] sorted[k] == all[order[k] as int]
        };
    assert forall|k: int| 0 <= k < r.len() implies (#[trigger] r[k]).timestamp.wf() by {
        assert(r[k] == sorted[k]);
        assert(sorted[k] == all[order[k] as int]);
    }
}

} // verus!
