//! Normalized security events: severity and outcome, field access by name,
//! and the stable fingerprint given to events that arrive without an id.

use crate::text::{
    all_white, all_white_exec, chars_of, clone_opt, hex, is_lit, lemma_hex_len, lower, opt_view, push_hex,
    push_str, push_utf8, seq_eq, to_lower, utf8,
};
use crate::sort::{lemma_text_lt_irrefl, text_lt};
use crate::time::{rfc3339_of, rfc3339_text, Timestamp};
use sha2::Digest;
use vstd::prelude::*;

verus! {

/// How serious an event is, from informational to critical.
#[derive(Debug, Clone, Copy, PartialEq, Eq, PartialOrd, Ord, Structural)]
pub enum Severity {
    Info,
    Low,
    Medium,
    High,
    Critical,
}

impl Severity {
    /// Risk weight of a severity.
    pub open spec fn weight(self) -> u32 {
        match self {
            Severity::Info => 1,
            Severity::Low => 3,
            Severity::Medium => 5,
            Severity::High => 8,
            Severity::Critical => 10,
        }
    }

    /// Position in the order `Info < Low < Medium < High < Critical`.
    pub open spec fn rank(self) -> nat {
        match self {
            Severity::Info => 0,
            Severity::Low => 1,
            Severity::Medium => 2,
            Severity::High => 3,
            Severity::Critical => 4,
        }
    }

    /// Lowercase name, as events spell it.
    pub open spec fn name(self) -> Seq<char> {
        match self {
            Severity::Info => "info"@,
            Severity::Low => "low"@,
            Severity::Medium => "medium"@,
            Severity::High => "high"@,
            Severity::Critical => "critical"@,
        }
    }

    pub fn score(self) -> (r: u32)
        ensures
            r == self.weight(),
    {
        match self {
            Severity::Info => 1,
            Severity::Low => 3,
            Severity::Medium => 5,
            Severity::High => 8,
            Severity::Critical => 10,
        }
    }

    pub fn level(self) -> (r: u8)
        ensures
            r == self.rank(),
    {
        match self {
            Severity::Info => 0,
            Severity::Low => 1,
            Severity::Medium => 2,
            Severity::High => 3,
            Severity::Critical => 4,
        }
    }

    pub fn name_string(self) -> (r: String)
        ensures
            r@ == self.name(),
    {
        match self {
            Severity::Info => String::from_str("info"),
            Severity::Low => String::from_str("low"),
            Severity::Medium => String::from_str("medium"),
            Severity::High => String::from_str("high"),
            Severity::Critical => String::from_str("critical"),
        }
    }
}

/// Whether the action an event records succeeded.
#[derive(Debug, Clone, Copy, PartialEq, Eq, Structural)]
pub enum Outcome {
    Success,
    Failure,
    Unknown,
}

impl Outcome {
    /// Lowercase name, as events spell it.
    pub open spec fn name(self) -> Seq<char> {
        match self {
            Outcome::Success => "success"@,
            Outcome::Failure => "failure"@,
            Outcome::Unknown => "unknown"@,
        }
    }

    pub fn name_string(self) -> (r: String)
        ensures
            r@ == self.name(),
    {
        match self {
            Outcome::Success => String::from_str("success"),
            Outcome::Failure => String::from_str("failure"),
            Outcome::Unknown => String::from_str("unknown"),
        }
    }
}

/// One normalized log event. Free-form attributes are kept as key/value
/// pairs; a lookup sees the first pair with the key.
#[derive(Debug, Clone, PartialEq, Eq)]
pub struct EventRecord {
    pub id: String,
    pub timestamp: Timestamp,
    pub source: String,
    pub event_type: String,
    pub user: Option<String>,
    pub host: Option<String>,
    pub source_ip: Option<String>,
    pub outcome: Outcome,
    pub severity: Severity,
    pub message: String,
    pub attributes: Vec<(String, String)>,
}

/// Attribute keys strictly increase in text order, as a map keyed by
/// text hands them out.
pub open spec fn attrs_sorted(attrs: Seq<(String, String)>) -> bool {
    forall|a: int, b: int| 0 <= a < b < attrs.len() ==> text_lt(#[trigger] attrs[a].0@, #[trigger] attrs[b].0@)
}

/// Sorted attributes never repeat a key.
pub proof fn lemma_attrs_sorted_unique(attrs: Seq<(String, String)>, a: int, b: int)
    requires
        attrs_sorted(attrs),
        0 <= a < attrs.len(),
        0 <= b < attrs.len(),
        a != b,
    ensures
        attrs[a].0@ != attrs[b].0@,
{
    lemma_text_lt_irrefl(attrs[a].0@);
    lemma_text_lt_irrefl(attrs[b].0@);
}

/// Value of the first attribute pair whose key is `key`.
pub open spec fn attr_lookup(attrs: Seq<(String, String)>, key: Seq<char>) -> Option<Seq<char>>
    decreases attrs.len(),
{
    if attrs.len() == 0 {
        None
    } else if attrs[0].0@ == key {
        Some(attrs[0].1@)
    } else {
        attr_lookup(attrs.drop_first(), key)
    }
}

/// The text an optional field contributes to a fingerprint: its value, or
/// nothing when absent.
pub open spec fn or_empty(o: Option<String>) -> Seq<char> {
    match o {
        Some(s) => s@,
        None => Seq::empty(),
    }
}

/// SHA-256 digest of a byte sequence.
pub uninterp spec fn sha256_of(data: Seq<u8>) -> Seq<u8>;

/// `sha2::Sha256::digest`. The contract names the digest and states its
/// length of 32 bytes; the compression function is not restated.
#[verifier::external_body]
pub(crate) fn sha256(data: &[u8]) -> (r: Vec<u8>)
    ensures
        r@ == sha256_of(data@),
        r@.len() == 32,
{
    sha2::Sha256::digest(data).to_vec()
}

impl EventRecord {
    /// The value a query sees under a field name (case-insensitive):
    /// the built-in fields and their aliases, else a free-form attribute.
    pub open spec fn field_value(self, name: Seq<char>) -> Option<Seq<char>> {
        let n = lower(name);
        if n == "id"@ {
            Some(self.id@)
        } else if n == "source"@ {
            Some(self.source@)
        } else if n == "type"@ || n == "event_type"@ {
            Some(self.event_type@)
        } else if n == "user"@ {
            opt_view(self.user)
        } else if n == "host"@ {
            opt_view(self.host)
        } else if n == "ip"@ || n == "source_ip"@ {
            opt_view(self.source_ip)
        } else if n == "outcome"@ || n == "result"@ {
            Some(self.outcome.name())
        } else if n == "severity"@ {
            Some(self.severity.name())
        } else if n == "message"@ {
            Some(self.message@)
        } else {
            attr_lookup(self.attributes@, n)
        }
    }

    /// The bytes a fingerprint hashes: the RFC 3339 timestamp, source,
    /// type, user, host, source IP and message, each followed by a zero byte.
    pub open spec fn fingerprint_material(self) -> Seq<u8> {
        utf8(rfc3339_text(self.timestamp.secs, self.timestamp.nanos)) + seq![0u8] + utf8(
            self.source@,
        ) + seq![0u8] + utf8(self.event_type@) + seq![0u8] + utf8(or_empty(self.user)) + seq![
            0u8,
        ] + utf8(or_empty(self.host)) + seq![0u8] + utf8(or_empty(self.source_ip)) + seq![0u8]
            + utf8(self.message@) + seq![0u8]
    }

    /// `tf-` followed by the first 20 hex digits of the SHA-256 digest.
    pub open spec fn fingerprint_text(self) -> Seq<char> {
        "tf-"@ + hex(sha256_of(self.fingerprint_material()).take(10))
    }

    /// The id an event ends with once normalized: its own id unless that
    /// is blank, else its fingerprint.
    pub open spec fn normalized_id(self) -> Seq<char> {
        if all_white(self.id@) {
            self.fingerprint_text()
        } else {
            self.id@
        }
    }

    /// Every field but the id agrees.
    pub open spec fn same_but_id(self, other: EventRecord) -> bool {
        &&& self.timestamp == other.timestamp
        &&& self.source == other.source
        &&& self.event_type == other.event_type
        &&& self.user == other.user
        &&& self.host == other.host
        &&& self.source_ip == other.source_ip
        &&& self.outcome == other.outcome
        &&& self.severity == other.severity
        &&& self.message == other.message
        &&& self.attributes@ == other.attributes@
    }

    /// Every field agrees (the attributes by content).
    pub open spec fn same_as(self, other: EventRecord) -> bool {
        self.id == other.id && self.same_but_id(other)
    }

    /// Gives a blank id the event's fingerprint.
    pub fn ensure_id(&mut self)
        requires
            old(self).timestamp.wf(),
        ensures
            final(self).id@ == old(self).normalized_id(),
            final(self).same_but_id(*old(self)),
    {
        let id_chars = chars_of(self.id.as_str());
        if all_white_exec(id_chars.as_slice()) {
            self.id = self.fingerprint();
        }
    }

    /// Stable id derived from the event's content.
    pub fn fingerprint(&self) -> (r: String)
        requires
            self.timestamp.wf(),
        ensures
            r@ == self.fingerprint_text(),
            r@.len() == 23,
    {
        let mut material: Vec<u8> = Vec::new();
        let stamp = rfc3339_of(&self.timestamp);
        let parts: [&str; 7] = [
            stamp.as_str(),
            self.source.as_str(),
            self.event_type.as_str(),
            match &self.user {
                Some(v) => v.as_str(),
                None => "",
            },
            match &self.host {
                Some(v) => v.as_str(),
                None => "",
            },
            match &self.source_ip {
                Some(v) => v.as_str(),
                None => "",
            },
            self.message.as_str(),
        ];
        let ghost texts: Seq<Seq<char>> = seq![
            rfc3339_text(self.timestamp.secs, self.timestamp.nanos),
            self.source@,
            self.event_type@,
            or_empty(self.user),
            or_empty(self.host),
            or_empty(self.source_ip),
            self.message@,
        ];
        proof {
            reveal_strlit("");
        }
        let mut k: usize = 0;
        while k < 7
            invariant
                k <= 7,
                forall|j: int| 0 <= j < 7 ==> (#[trigger] parts[j])@ == texts[j],
                material@ == material_prefix(texts, k as int),
            decreases 7 - k,
        {
            let cs = chars_of(parts[k]);
            push_utf8(&mut material, cs.as_slice());
            material.push(0u8);
            k += 1;
        }
        assert(material@ =~= self.fingerprint_material()) by {
            reveal_with_fuel(material_prefix, 8);
        }
        let digest = sha256(material.as_slice());
        let mut first: Vec<u8> = Vec::new();
        let mut i: usize = 0;
        while i < 10
            invariant
                i <= 10,
                digest@.len() == 32,
                first@ == digest@.take(i as int),
            decreases 10 - i,
        {
            first.push(digest[i]);
            assert(digest@.take(i + 1) =~= digest@.take(i as int).push(digest@[i as int]));
            i += 1;
        }
        let mut out = String::new();
        push_str(&mut out, "tf-");
        push_hex(&mut out, first.as_slice());
        proof {
            reveal_strlit("tf-");
            lemma_hex_len(first@);
        }
        out
    }

    /// The value of a field by name, case-insensitively; `None` when the
    /// event has no such value.
    pub fn field(&self, field: &str) -> (r: Option<String>)
        ensures
            opt_view(r) == self.field_value(field@),
    {
        let name = to_lower(chars_of(field).as_slice());
        if is_lit(name.as_slice(), "id") {
            Some(self.id.clone())
        } else if is_lit(name.as_slice(), "source") {
            Some(self.source.clone())
        } else if is_lit(name.as_slice(), "type") || is_lit(name.as_slice(), "event_type") {
            Some(self.event_type.clone())
        } else if is_lit(name.as_slice(), "user") {
            clone_opt(&self.user)
        } else if is_lit(name.as_slice(), "host") {
            clone_opt(&self.host)
        } else if is_lit(name.as_slice(), "ip") || is_lit(name.as_slice(), "source_ip") {
            clone_opt(&self.source_ip)
        } else if is_lit(name.as_slice(), "outcome") || is_lit(name.as_slice(), "result") {
            Some(self.outcome.name_string())
        } else if is_lit(name.as_slice(), "severity") {
            Some(self.severity.name_string())
        } else if is_lit(name.as_slice(), "message") {
            Some(self.message.clone())
        } else {
            lookup_attribute(&self.attributes, name.as_slice())
        }
    }
}

/// The material contributed by the first `k` texts.
pub open spec fn material_prefix(texts: Seq<Seq<char>>, k: int) -> Seq<u8>
    decreases k,
{
    if k <= 0 {
        Seq::empty()
    } else {
        material_prefix(texts, k - 1) + utf8(texts[k - 1]) + seq![0u8]
    }
}

/// First attribute value stored under `key`.
pub fn lookup_attribute(attrs: &Vec<(String, String)>, key: &[char]) -> (r: Option<String>)
    ensures
        opt_view(r) == attr_lookup(attrs@, key@),
{
    let mut i: usize = 0;
    assert(attrs@.skip(0) =~= attrs@);
    while i < attrs.len()
        invariant
            i <= attrs.len(),
            attr_lookup(attrs@, key@) == attr_lookup(attrs@.skip(i as int), key@),
        decreases attrs.len() - i,
    {
        let k = chars_of(attrs[i].0.as_str());
        assert(attrs@.skip(i as int)[0] == attrs@[i as int]);
        if seq_eq(k.as_slice(), key) {
            return Some(attrs[i].1.clone());
        }
        assert(attrs@.skip(i as int).drop_first() =~= attrs@.skip(i + 1));
        i += 1;
    }
    None
}

/// A copy of an event, field for field.
pub fn copy_event(e: &EventRecord) -> (r: EventRecord)
    ensures
        r.same_as(*e),
{
    let mut attributes: Vec<(String, String)> = Vec::new();
    let mut i: usize = 0;
    while i < e.attributes.len()
        invariant
            i <= e.attributes.len(),
            attributes@ == e.attributes@.take(i as int),
        decreases e.attributes.len() - i,
    {
        let pair = (e.attributes[i].0.clone(), e.attributes[i].1.clone());
        attributes.push(pair);
        assert(e.attributes@.take(i + 1) =~= e.attributes@.take(i as int).push(e.attributes@[i as int]));
        i += 1;
    }
    assert(e.attributes@.take(e.attributes.len() as int) =~= e.attributes@);
    EventRecord {
        id: e.id.clone(),
        timestamp: e.timestamp,
        source: e.source.clone(),
        event_type: e.event_type.clone(),
        user: clone_opt(&e.user),
        host: clone_opt(&e.host),
        source_ip: clone_opt(&e.source_ip),
        outcome: e.outcome,
        severity: e.severity,
        message: e.message.clone(),
        attributes,
    }
}

/// The fingerprint depends on the timestamp, source, type, user, host,
/// source IP and message only: neither the id nor the attributes change it.
pub proof fn lemma_fingerprint_stable(a: EventRecord, b: EventRecord)
    requires
        a.timestamp == b.timestamp,
        a.source@ == b.source@,
        a.event_type@ == b.event_type@,
        or_empty(a.user) == or_empty(b.user),
        or_empty(a.host) == or_empty(b.host),
        or_empty(a.source_ip) == or_empty(b.source_ip),
        a.message@ == b.message@,
    ensures
        a.fingerprint_text() == b.fingerprint_text(),
{
}

/// Normalizing an id twice changes nothing: a fingerprint is never blank.
pub proof fn lemma_normalized_id_idempotent(e: EventRecord, f: EventRecord)
    requires
        f.id@ == e.normalized_id(),
        f.same_but_id(e),
    ensures
        f.normalized_id() == f.id@,
{
    if all_white(e.id@) {
        let t = e.fingerprint_text();
        reveal_strlit("tf-");
        assert(t[0] == "tf-"@[0]);
        assert(t[0] == 't');
        assert(!crate::text::is_white(t[0]));
    }
}

/// The attribute pairs by value.
pub open spec fn attr_views(attrs: Seq<(String, String)>) -> Seq<(Seq<char>, Seq<char>)> {
    attrs.map_values(|p: (String, String)| (p.0@, p.1@))
}

/// Two events agree in the value of every field.
pub open spec fn same_view(a: EventRecord, b: EventRecord) -> bool {
    &&& a.id@ == b.id@
    &&& a.timestamp == b.timestamp
    &&& a.source@ == b.source@
    &&& a.event_type@ == b.event_type@
    &&& opt_view(a.user) == opt_view(b.user)
    &&& opt_view(a.host) == opt_view(b.host)
    &&& opt_view(a.source_ip) == opt_view(b.source_ip)
    &&& a.outcome == b.outcome
    &&& a.severity == b.severity
    &&& a.message@ == b.message@
    &&& attr_views(a.attributes@) == attr_views(b.attributes@)
}

} // verus!
