//! The engine behind the browser front end: one dataset with its search
//! index and entity graph, and the browser's limits on input size and event
//! count.

use crate::detect::{all_views, det_views, detect_all, detect_ready, sorted_views, time_ordered, windows_measurable, Detection, DetectorConfig};
use crate::event::EventRecord;
use crate::graph::{graph_model, EntityGraph, GraphEdge, GraphNode, PathMode, PathResult};
use crate::index::{stably_sorted, times_wf, QueryResult, SearchIndex};
use crate::ingest::IngestReport;
use crate::query::ParseError;
use crate::synthetic::{generate_events, generated_as, Scenario};
use crate::synthetic::lemma_generated_times;
use vstd::prelude::*;

verus! {

/// Largest input the browser accepts, in bytes.
pub const WEB_MAX_BYTES: usize = 52428800;

/// Most events the browser holds.
pub const WEB_MAX_EVENTS: usize = 100000;

/// Counts describing the loaded dataset.
#[derive(Debug, Clone)]
pub struct EngineStats {
    pub events: usize,
    pub nodes: usize,
    pub edges: usize,
    pub local_only: bool,
    pub engine: String,
}

/// The scenario a front end names in kebab case.
pub open spec fn scenario_named(value: Seq<char>) -> Option<Scenario> {
    if value == "baseline"@ {
        Some(Scenario::Baseline)
    } else if value == "brute-force"@ {
        Some(Scenario::BruteForce)
    } else if value == "password-spray"@ {
        Some(Scenario::PasswordSpray)
    } else if value == "lateral-movement"@ {
        Some(Scenario::LateralMovement)
    } else if value == "mixed"@ {
        Some(Scenario::Mixed)
    } else {
        None
    }
}

pub fn parse_scenario(value: &str) -> (r: Result<Scenario, String>)
    ensures
        match scenario_named(value@) {
            Some(s) => r == Ok::<Scenario, String>(s),
            None => r matches Err(m) && m@ == "unknown scenario"@,
        },
{
    let cs = crate::text::chars_of(value);
    if crate::text::is_lit(cs.as_slice(), "baseline") {
        Ok(Scenario::Baseline)
    } else if crate::text::is_lit(cs.as_slice(), "brute-force") {
        Ok(Scenario::BruteForce)
    } else if crate::text::is_lit(cs.as_slice(), "password-spray") {
        Ok(Scenario::PasswordSpray)
    } else if crate::text::is_lit(cs.as_slice(), "lateral-movement") {
        Ok(Scenario::LateralMovement)
    } else if crate::text::is_lit(cs.as_slice(), "mixed") {
        Ok(Scenario::Mixed)
    } else {
        Err(String::from_str("unknown scenario"))
    }
}

/// A dataset loaded in the browser, indexed for search and as a graph.
pub struct TraceForgeEngine {
    index: SearchIndex,
    graph: EntityGraph,
}

impl TraceForgeEngine {
    /// The loaded events, ordered by time and id.
    pub closed spec fn event_seq(self) -> Seq<EventRecord> {
        self.index.event_seq()
    }

    pub closed spec fn index_view(self) -> SearchIndex {
        self.index
    }

    pub closed spec fn graph_view(self) -> EntityGraph {
        self.graph
    }

    /// `s` counts the loaded events, the graph's nodes and its edges.
    pub open spec fn describes(self, s: EngineStats) -> bool {
        &&& s.events == self.event_seq().len()
        &&& s.nodes == self.graph_view().label_seq().len()
        &&& exists|r: Seq<GraphEdge>, idx: Seq<(int, int)>| self.graph_view().lists_edges(r, idx) && s.edges == r.len()
        &&& s.local_only
        &&& s.engine@ == "traceforge-core/0.1.0"@
    }

    /// The index and graph describe the same events, no more than the
    /// browser holds.
    pub closed spec fn wf(self) -> bool {
        &&& self.index.wf()
        &&& self.graph.wf()
        &&& self.graph.model() == graph_model(self.index.event_seq())
        &&& self.index.event_seq().len() <= WEB_MAX_EVENTS
    }

    /// The index and graph over `events`.
    fn from_events(events: Vec<EventRecord>) -> (e: TraceForgeEngine)
        requires
            times_wf(events@),
            events@.len() <= WEB_MAX_EVENTS,
        ensures
            e.wf(),
            stably_sorted(events@, e.event_seq()),
    {
        let index = SearchIndex::build(events);
        let graph = EntityGraph::build(index.events());
        TraceForgeEngine { index, graph }
    }

    /// The engine starts with two thousand events of the mixed scenario,
    /// seed 42.
    pub fn new() -> (e: TraceForgeEngine)
        ensures
            e.wf(),
            exists|g: Seq<EventRecord>| generated_as(g, 2000, 42, Scenario::Mixed) && stably_sorted(g, e.event_seq()),
    {
        let events = generate_events(2000, 42, Scenario::Mixed);
        proof {
            lemma_generated_times(events@, 2000, 42, Scenario::Mixed);
        }
        let ghost g = events@;
        let e = Self::from_events(events);
        e
    }

    /// Replaces the dataset with `count` generated events, refusing more
    /// than the browser holds and unknown scenario names.
    pub fn generate(&mut self, count: usize, seed: u64, scenario: &str) -> (r: Result<EngineStats, String>)
        requires
            old(self).wf(),
        ensures
            final(self).wf(),
            count > WEB_MAX_EVENTS ==> (r matches Err(m) && m@ == "event limit is 100000"@) && *final(self) == *old(self),
            count <= WEB_MAX_EVENTS && scenario_named(scenario@) is None ==> (r matches Err(m) && m@ == "unknown scenario"@)
                && *final(self) == *old(self),
            count <= WEB_MAX_EVENTS && scenario_named(scenario@) is Some ==> {
                &&& exists|g: Seq<EventRecord>|
                    generated_as(g, count as nat, seed, scenario_named(scenario@)->Some_0) && stably_sorted(g, final(self).event_seq())
                &&& (r matches Ok(st) && final(self).describes(st))
            },
    {
        if count > WEB_MAX_EVENTS {
            return Err(String::from_str("event limit is 100000"));
        }
        let s = match parse_scenario(scenario) {
            Ok(s) => s,
            Err(m) => {
                return Err(m);
            },
        };
        let events = generate_events(count, seed, s);
        proof {
            lemma_generated_times(events@, count as nat, seed, s);
        }
        *self = Self::from_events(events);
        Ok(self.stats())
    }

    /// Refuses input larger than the browser accepts.
    pub fn accept_size(len: usize) -> (r: Result<(), String>)
        ensures
            len > WEB_MAX_BYTES ==> (r matches Err(m) && m@ == "file limit is 50 MB"@),
            len <= WEB_MAX_BYTES ==> r is Ok,
    {
        if len > WEB_MAX_BYTES {
            Err(String::from_str("file limit is 50 MB"))
        } else {
            Ok(())
        }
    }

    /// Replaces the dataset with the events of an ingestion report,
    /// refusing more events than the browser holds; hands the report back.
    pub fn load_report(&mut self, report: IngestReport) -> (r: Result<IngestReport, String>)
        requires
            old(self).wf(),
            times_wf(report.events@),
        ensures
            final(self).wf(),
            report.events.len() > WEB_MAX_EVENTS ==> (r matches Err(m) && m@ == "event limit is 100000"@) && *final(self)
                == *old(self),
            report.events.len() <= WEB_MAX_EVENTS ==> {
                &&& r == Ok::<IngestReport, String>(report)
                &&& exists|copies: Seq<EventRecord>|
                    copies.len() == report.events@.len() && (forall|k: int|
                        0 <= k < copies.len() ==> (#[trigger] copies[k]).same_as(report.events@[k])) && stably_sorted(
                        copies,
                        final(self).event_seq(),
                    )
            },
    {
        if report.events.len() > WEB_MAX_EVENTS {
            return Err(String::from_str("event limit is 100000"));
        }
        let mut copies: Vec<EventRecord> = Vec::new();
        let mut i: usize = 0;
        while i < report.events.len()
            invariant
                i <= report.events.len(),
                copies.len() == i,
                times_wf(report.events@),
                forall|k: int| 0 <= k < i ==> (#[trigger] copies@[k]).same_as(report.events@[k]),
            decreases report.events.len() - i,
        {
            copies.push(crate::event::copy_event(&report.events[i]));
            i += 1;
        }
        proof {
            assert forall|k: int| 0 <= k < copies@.len() implies (#[trigger] copies@[k]).timestamp.wf() by {
                assert(copies@[k].same_as(report.events@[k]));
            }
        }
        *self = Self::from_events(copies);
        Ok(report)
    }

    /// The loaded events, ordered by time and id.
    pub fn events(&self) -> (r: &[EventRecord])
        requires
            self.wf(),
        ensures
            r@ == self.event_seq(),
    {
        self.index.events()
    }

    /// Answers a query over the loaded events.
    pub fn query(&self, query: &str, limit: usize) -> (r: Result<QueryResult, ParseError>)
        requires
            self.wf(),
        ensures
            match r {
                Err(e) => crate::query::query_spec(query@) == Err::<crate::query::ExprSpec, (int, Seq<char>)>(
                    crate::query::err_view(e),
                ),
                Ok(res) => match crate::query::query_spec(query@) {
                    Ok(x) => self.index_view().answers(x, query@, limit, res),
                    Err(_) => false,
                },
            },
    {
        self.index.query(query, limit)
    }

    /// Runs the detection rules, with their default settings, over the
    /// loaded events.
    pub fn detections(&self) -> (r: Vec<Detection>)
        requires
            self.wf(),
            windows_measurable(self.event_seq(), 300),
        ensures
            exists|ev: Seq<EventRecord>|
                #[trigger] time_ordered(self.event_seq(), ev) && sorted_views(
                    all_views(ev, DetectorConfig { brute_force_failures: 5, spray_accounts: 5, window_seconds: 300, lateral_hosts: 3 }),
                    det_views(r@),
                ),
    {
        let config = DetectorConfig::default();
        let ready = detect_ready(self.index.events(), &config);
        assert(ready);
        detect_all(self.index.events(), &config)
    }

    /// The graph's nodes and edges.
    pub fn graph(&self) -> (r: (Vec<GraphNode>, Vec<GraphEdge>))
        requires
            self.wf(),
        ensures
            self.graph_view().reports_nodes(r.0@),
            exists|idx: Seq<(int, int)>| self.graph_view().lists_edges(r.1@, idx),
    {
        let nodes = self.graph.nodes();
        let edges = self.graph.edges();
        let ghost idx = choose|idx: Seq<(int, int)>| self.graph.lists_edges(edges@, idx);
        let r = (nodes, edges);
        assert(self.graph_view().lists_edges(r.1@, idx));
        r
    }

    /// A path between two entities, by risk when `risk_weighted`, else by
    /// hops.
    pub fn path(&self, from: &str, to: &str, risk_weighted: bool) -> (r: PathResult)
        requires
            self.wf(),
        ensures
            self.graph_view().path_answer(from@, to@, if risk_weighted { PathMode::Risk } else { PathMode::Hops }, r),
    {
        let mode = if risk_weighted {
            PathMode::Risk
        } else {
            PathMode::Hops
        };
        self.graph.path(from, to, mode)
    }

    /// Counts describing the loaded dataset.
    pub fn stats(&self) -> (s: EngineStats)
        requires
            self.wf(),
        ensures
            self.describes(s),
    {
        let events = self.index.events().len();
        let nodes = self.graph.nodes().len();
        let edges = self.graph.edges().len();
        EngineStats { events, nodes, edges, local_only: true, engine: String::from_str("traceforge-core/0.1.0") }
    }
}

} // verus!
