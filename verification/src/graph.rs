//! The entity graph: users, hosts and source IPs seen together in one
//! event are connected; each connection counts its observations and keeps
//! the highest severity weight seen. Connected components come from a
//! union-find; paths from breadth-first search (fewest hops) or from
//! Dijkstra's algorithm over an indexed min-heap (strongest risk chain).

use crate::event::EventRecord;
use crate::text::{chars_of, string_of};
use crate::trie::PrefixTrie;
use crate::union_find::{union_run, UnionFind};
use crate::heap::IndexedMinHeap;
use std::collections::VecDeque;
use crate::postings::{index_positions, lemma_index_positions_unique, sorted_unique};
use vstd::prelude::*;

verus! {

broadcast use vstd::string::group_string_axioms;

/// Which optimality a path search aims for.
#[derive(Debug, Clone, Copy, PartialEq, Eq, Structural)]
pub enum PathMode {
    Hops,
    Risk,
}

/// A node as the graph reports it.
#[derive(Debug, Clone)]
pub struct GraphNode {
    pub id: String,
    pub kind: String,
    pub label: String,
    pub component: usize,
}

/// An undirected edge as the graph reports it.
#[derive(Debug, Clone)]
pub struct GraphEdge {
    pub source: String,
    pub target: String,
    pub observations: u32,
    pub risk: u32,
}

/// The answer to a path search.
#[derive(Debug, Clone)]
pub struct PathResult {
    pub found: bool,
    pub mode: PathMode,
    pub nodes: Vec<String>,
    pub cost: u32,
    pub visited: usize,
    pub explanation: String,
}

/// What an edge has recorded.
#[derive(Debug, Clone, Copy, PartialEq, Eq, Structural)]
pub struct EdgeData {
    pub observations: u32,
    pub risk: u32,
}

/// The labels of the entities an event names: `user:`, `host:` and `ip:`
/// followed by the value, for those present, in that order.
pub open spec fn entity_labels(e: EventRecord) -> Seq<Seq<char>> {
    let a: Seq<Seq<char>> = match e.user {
        Some(u) => seq!["user:"@ + u@],
        None => Seq::empty(),
    };
    let b = match e.host {
        Some(h) => a.push("host:"@ + h@),
        None => a,
    };
    match e.source_ip {
        Some(ip) => b.push("ip:"@ + ip@),
        None => b,
    }
}

/// The graph in terms of labels: the labels in order of first appearance,
/// and for each ordered pair of connected labels the observation count
/// and the highest risk.
pub struct GraphModel {
    pub labels: Seq<Seq<char>>,
    pub edges: Map<(Seq<char>, Seq<char>), (int, int)>,
}

pub open spec fn add_label(labels: Seq<Seq<char>>, l: Seq<char>) -> Seq<Seq<char>> {
    if labels.contains(l) {
        labels
    } else {
        labels.push(l)
    }
}

/// One more observation of `a` next to `b`, with risk `r`.
pub open spec fn observe(edges: Map<(Seq<char>, Seq<char>), (int, int)>, a: Seq<char>, b: Seq<char>, r: int) -> Map<
    (Seq<char>, Seq<char>),
    (int, int),
> {
    let old = if edges.contains_key((a, b)) {
        edges[(a, b)]
    } else {
        (0, 0)
    };
    edges.insert((a, b), (old.0 + 1, if old.1 >= r { old.1 } else { r }))
}

/// Connecting two labels: both become nodes, and both directions are observed.
pub open spec fn connect_model(m: GraphModel, a: Seq<char>, b: Seq<char>, r: int) -> GraphModel {
    GraphModel { labels: add_label(add_label(m.labels, a), b), edges: observe(observe(m.edges, a, b, r), b, a, r) }
}

/// An event connects each pair of its entities, in the order first and
/// second, first and third, second and third.
pub open spec fn event_model(m: GraphModel, e: EventRecord) -> GraphModel {
    let ents = entity_labels(e);
    let r = e.severity.weight() as int;
    let m1 = if ents.len() >= 2 {
        connect_model(m, ents[0], ents[1], r)
    } else {
        m
    };
    let m2 = if ents.len() >= 3 {
        connect_model(m1, ents[0], ents[2], r)
    } else {
        m1
    };
    if ents.len() >= 3 {
        connect_model(m2, ents[1], ents[2], r)
    } else {
        m2
    }
}

/// The risk recorded between two labels so far: 0 before any edge.
pub open spec fn risk_of(edges: Map<(Seq<char>, Seq<char>), (int, int)>, k: (Seq<char>, Seq<char>)) -> int {
    if edges.contains_key(k) {
        edges[k].1
    } else {
        0
    }
}

/// The larger of two numbers.
pub open spec fn larger(x: int, y: int) -> int {
    if x >= y {
        x
    } else {
        y
    }
}

/// `e` names both `a` and `b` as entities, at different places: the event
/// joins `a` to `b`.
pub open spec fn observes(e: EventRecord, a: Seq<char>, b: Seq<char>) -> bool {
    let ents = entity_labels(e);
    exists|i: int, j: int| 0 <= i < ents.len() && 0 <= j < ents.len() && i != j && #[trigger] ents[i] == a && #[trigger] ents[j] == b
}

proof fn lemma_observe_risk(edges: Map<(Seq<char>, Seq<char>), (int, int)>, a: Seq<char>, b: Seq<char>, r: int)
    requires
        r >= 0,
        forall|k: (Seq<char>, Seq<char>)| #[trigger] edges.contains_key(k) ==> edges[k].1 >= 0,
    ensures
        forall|k: (Seq<char>, Seq<char>)| #[trigger] observe(edges, a, b, r).contains_key(k) <==> (edges.contains_key(k) || k == (a, b)),
        forall|k: (Seq<char>, Seq<char>)| #[trigger] observe(edges, a, b, r).contains_key(k) ==> observe(edges, a, b, r)[k].1 >= 0,
        forall|k: (Seq<char>, Seq<char>)| #[trigger] risk_of(observe(edges, a, b, r), k) == if k == (a, b) {
            larger(risk_of(edges, k), r)
        } else {
            risk_of(edges, k)
        },
{
}

/// What one event does to the recorded risks: the pairs it joins get at
/// least its severity weight, all other pairs keep theirs.
proof fn lemma_event_model_risk(m: GraphModel, e: EventRecord)
    requires
        forall|k: (Seq<char>, Seq<char>)| #[trigger] m.edges.contains_key(k) ==> m.edges[k].1 >= 0,
    ensures
        forall|k: (Seq<char>, Seq<char>)| #[trigger] event_model(m, e).edges.contains_key(k) ==> event_model(m, e).edges[k].1 >= 0,
        forall|a: Seq<char>, b: Seq<char>|
            #[trigger] event_model(m, e).edges.contains_key((a, b)) <==> (m.edges.contains_key((a, b)) || observes(e, a, b)),
        forall|a: Seq<char>, b: Seq<char>|
            #[trigger] risk_of(event_model(m, e).edges, (a, b)) == if observes(e, a, b) {
                larger(risk_of(m.edges, (a, b)), e.severity.weight() as int)
            } else {
                risk_of(m.edges, (a, b))
            },
{
    let ents = entity_labels(e);
    let r = e.severity.weight() as int;
    assert(ents.len() <= 3);
    if ents.len() >= 2 {
        let e0 = observe(m.edges, ents[0], ents[1], r);
        lemma_observe_risk(m.edges, ents[0], ents[1], r);
        let e1 = observe(e0, ents[1], ents[0], r);
        lemma_observe_risk(e0, ents[1], ents[0], r);
        if ents.len() >= 3 {
            let e2 = observe(e1, ents[0], ents[2], r);
            lemma_observe_risk(e1, ents[0], ents[2], r);
            let e3 = observe(e2, ents[2], ents[0], r);
            lemma_observe_risk(e2, ents[2], ents[0], r);
            let e4 = observe(e3, ents[1], ents[2], r);
            lemma_observe_risk(e3, ents[1], ents[2], r);
            let e5 = observe(e4, ents[2], ents[1], r);
            lemma_observe_risk(e4, ents[2], ents[1], r);
            assert(event_model(m, e).edges == e5);
            assert forall|a: Seq<char>, b: Seq<char>| observes(e, a, b) <==> ((a, b) == (ents[0], ents[1]) || (a, b) == (ents[1], ents[0])
                || (a, b) == (ents[0], ents[2]) || (a, b) == (ents[2], ents[0]) || (a, b) == (ents[1], ents[2]) || (a, b) == (
                ents[2],
                ents[1],
            )) by {
                if observes(e, a, b) {
                    let (i, j) = choose|i: int, j: int|
                        0 <= i < ents.len() && 0 <= j < ents.len() && i != j && #[trigger] ents[i] == a && #[trigger] ents[j] == b;
                }
                if (a, b) == (ents[0], ents[1]) { assert(ents[0] == a && ents[1] == b); }
                if (a, b) == (ents[1], ents[0]) { assert(ents[1] == a && ents[0] == b); }
                if (a, b) == (ents[0], ents[2]) { assert(ents[0] == a && ents[2] == b); }
                if (a, b) == (ents[2], ents[0]) { assert(ents[2] == a && ents[0] == b); }
                if (a, b) == (ents[1], ents[2]) { assert(ents[1] == a && ents[2] == b); }
                if (a, b) == (ents[2], ents[1]) { assert(ents[2] == a && ents[1] == b); }
            }
        } else {
            assert(event_model(m, e).edges == e1);
            assert forall|a: Seq<char>, b: Seq<char>| observes(e, a, b) <==> ((a, b) == (ents[0], ents[1]) || (a, b) == (ents[1], ents[0])) by {
                if observes(e, a, b) {
                    let (i, j) = choose|i: int, j: int|
                        0 <= i < ents.len() && 0 <= j < ents.len() && i != j && #[trigger] ents[i] == a && #[trigger] ents[j] == b;
                }
                if (a, b) == (ents[0], ents[1]) { assert(ents[0] == a && ents[1] == b); }
                if (a, b) == (ents[1], ents[0]) { assert(ents[1] == a && ents[0] == b); }
            }
        }
    } else {
        assert forall|a: Seq<char>, b: Seq<char>| !observes(e, a, b) by {}
    }
}

/// The risk on an edge is the highest severity weight of the events that
/// joined its two entities: the graph's edges are exactly the pairs some
/// event joins, each edge's risk is at least the weight of every event
/// joining the pair, and equal to the weight of one of them.
pub proof fn lemma_edge_risk_is_highest(events: Seq<EventRecord>)
    ensures
        forall|k: (Seq<char>, Seq<char>)| #[trigger] graph_model(events).edges.contains_key(k) ==> graph_model(events).edges[k].1 >= 0,
        forall|a: Seq<char>, b: Seq<char>|
            #[trigger] graph_model(events).edges.contains_key((a, b)) <==> exists|i: int|
                0 <= i < events.len() && #[trigger] observes(events[i], a, b),
        forall|a: Seq<char>, b: Seq<char>, i: int|
            0 <= i < events.len() && #[trigger] observes(events[i], a, b) ==> risk_of(graph_model(events).edges, (a, b))
                >= events[i].severity.weight(),
        forall|a: Seq<char>, b: Seq<char>|
            #[trigger] graph_model(events).edges.contains_key((a, b)) ==> exists|i: int|
                0 <= i < events.len() && #[trigger] observes(events[i], a, b) && graph_model(events).edges[(a, b)].1
                    == events[i].severity.weight(),
    decreases events.len(),
{
    if events.len() > 0 {
        let p = events.drop_last();
        let e = events.last();
        let n = p.len() as int;
        lemma_edge_risk_is_highest(p);
        let m = graph_model(p);
        lemma_event_model_risk(m, e);
        let g = graph_model(events);
        assert(g == event_model(m, e));
        assert forall|i: int| 0 <= i < n implies #[trigger] events[i] == p[i] by {}
        assert(events[n] == e);
        assert forall|a: Seq<char>, b: Seq<char>|
            #[trigger] g.edges.contains_key((a, b)) <==> exists|i: int| 0 <= i < events.len() && #[trigger] observes(events[i], a, b) by {
            if m.edges.contains_key((a, b)) {
                let i = choose|i: int| 0 <= i < p.len() && #[trigger] observes(p[i], a, b);
                assert(events[i] == p[i]);
            }
            if observes(e, a, b) {
                assert(observes(events[n], a, b));
            }
            if exists|i: int| 0 <= i < events.len() && #[trigger] observes(events[i], a, b) {
                let i = choose|i: int| 0 <= i < events.len() && #[trigger] observes(events[i], a, b);
                if i < n {
                    assert(events[i] == p[i]);
                }
            }
        }
        assert forall|a: Seq<char>, b: Seq<char>, i: int|
            0 <= i < events.len() && #[trigger] observes(events[i], a, b) implies risk_of(g.edges, (a, b)) >= events[i].severity.weight() by {
            if i < n {
                assert(events[i] == p[i]);
                assert(observes(p[i], a, b));
            }
        }
        assert forall|a: Seq<char>, b: Seq<char>|
            #[trigger] g.edges.contains_key((a, b)) implies exists|i: int|
                0 <= i < events.len() && #[trigger] observes(events[i], a, b) && g.edges[(a, b)].1 == events[i].severity.weight() by {
            if observes(e, a, b) && risk_of(g.edges, (a, b)) == e.severity.weight() {
                assert(observes(events[n], a, b));
            } else {
                assert(m.edges.contains_key((a, b)));
                let i = choose|i: int|
                    0 <= i < p.len() && #[trigger] observes(p[i], a, b) && m.edges[(a, b)].1 == p[i].severity.weight();
                assert(events[i] == p[i]);
                assert(observes(events[i], a, b));
            }
        }
    }
}

/// Adding an event never lowers the risk recorded on an edge.
pub proof fn lemma_edge_risk_never_drops(events: Seq<EventRecord>, e: EventRecord)
    ensures
        forall|k: (Seq<char>, Seq<char>)|
            #[trigger] graph_model(events).edges.contains_key(k) ==> graph_model(events.push(e)).edges.contains_key(k)
                && graph_model(events.push(e)).edges[k].1 >= graph_model(events).edges[k].1,
{
    lemma_edge_risk_is_highest(events);
    let m = graph_model(events);
    lemma_event_model_risk(m, e);
    assert(events.push(e).drop_last() =~= events);
    assert(graph_model(events.push(e)) == event_model(m, e));
    assert forall|k: (Seq<char>, Seq<char>)| #[trigger] m.edges.contains_key(k) implies event_model(m, e).edges.contains_key(k)
        && event_model(m, e).edges[k].1 >= m.edges[k].1 by {
        let (a, b) = k;
        assert(k == (a, b));
        assert(risk_of(event_model(m, e).edges, (a, b)) >= risk_of(m.edges, (a, b)));
    }
}

/// The graph built from a sequence of events.
pub open spec fn graph_model(events: Seq<EventRecord>) -> GraphModel
    decreases events.len(),
{
    if events.len() == 0 {
        GraphModel { labels: Seq::empty(), edges: Map::empty() }
    } else {
        event_model(graph_model(events.drop_last()), events.last())
    }
}

/// Neighbours listed in increasing order, each once.
pub open spec fn row_sorted(row: Seq<(usize, EdgeData)>) -> bool {
    forall|a: int, b: int| 0 <= a < b < row.len() ==> (#[trigger] row[a]).0 < (#[trigger] row[b]).0
}

/// The row lists neighbour `j` with data `d`.
pub open spec fn row_has(row: Seq<(usize, EdgeData)>, j: usize, d: EdgeData) -> bool {
    exists|k: int| 0 <= k < row.len() && #[trigger] row[k] == (j, d)
}

/// The row lists neighbour `j`.
pub open spec fn row_key(row: Seq<(usize, EdgeData)>, j: usize) -> bool {
    exists|k: int| 0 <= k < row.len() && (#[trigger] row[k]).0 == j
}

/// The data the row lists for neighbour `j`.
pub open spec fn row_val(row: Seq<(usize, EdgeData)>, j: usize) -> EdgeData {
    row[choose|k: int| 0 <= k < row.len() && (#[trigger] row[k]).0 == j].1
}

/// Data after one more observation with risk `risk`.
pub open spec fn observed(row: Seq<(usize, EdgeData)>, j: usize, risk: u32) -> EdgeData {
    if row_key(row, j) {
        let d = row_val(row, j);
        EdgeData { observations: (d.observations + 1) as u32, risk: if d.risk >= risk { d.risk } else { risk } }
    } else {
        EdgeData { observations: 1, risk }
    }
}

/// `new` is `old` with neighbour `to` observed once more with risk `risk`.
pub open spec fn row_updated(old: Seq<(usize, EdgeData)>, new: Seq<(usize, EdgeData)>, to: usize, risk: u32) -> bool {
    forall|j: usize, d: EdgeData|
        #![trigger row_has(new, j, d)]
        #![trigger row_has(old, j, d)]
        row_has(new, j, d) <==> ((j != to && row_has(old, j, d)) || (j == to && d == observed(old, to, risk)))
}

/// Records one observation of neighbour `to` in a sorted row.
fn observe_row(row: &mut Vec<(usize, EdgeData)>, to: usize, risk: u32)
    requires
        row_sorted(old(row)@),
        row_key(old(row)@, to) ==> row_val(old(row)@, to).observations < u32::MAX,
    ensures
        row_sorted(final(row)@),
        row_updated(old(row)@, final(row)@, to, risk),
{
    let ghost r0 = row@;
    let mut k: usize = 0;
    while k < row.len() && row[k].0 < to
        invariant
            k <= row.len(),
            row@ == r0,
            row_sorted(r0),
            forall|m: int| 0 <= m < k ==> (#[trigger] r0[m]).0 < to,
        decreases row.len() - k,
    {
        k += 1;
    }
    if k < row.len() && row[k].0 == to {
        let d = row[k].1;
        assert(row_key(r0, to));
        let ghost c = choose|m: int| 0 <= m < r0.len() && (#[trigger] r0[m]).0 == to;
        assert(c == k) by {
            if c < k {
            } else if c > k {
                assert(r0[k as int].0 < r0[c].0);
            }
        }
        let nd = EdgeData {
            observations: d.observations + 1,
            risk: if d.risk >= risk { d.risk } else { risk },
        };
        assert(observed(r0, to, risk) == nd);
        row.set(k, (to, nd));
        assert(row_sorted(row@)) by {
            assert forall|a: int, b: int| 0 <= a < b < row@.len() implies (#[trigger] row@[a]).0 < (#[trigger] row@[b]).0 by {
                assert(r0[a].0 < r0[b].0);
            }
        }
        proof {
            assert forall|j: usize, e: EdgeData|
                #![trigger row_has(row@, j, e)]
                #![trigger row_has(r0, j, e)]
                row_has(row@, j, e) <==> ((j != to && row_has(r0, j, e)) || (j == to && e == observed(r0, to, risk))) by {
                if row_has(row@, j, e) {
                    let m = choose|m: int| 0 <= m < row@.len() && #[trigger] row@[m] == (j, e);
                    if m != k {
                        assert(r0[m] == (j, e));
                        if j == to {
                            if m < k {
                            } else {
                                assert(r0[k as int].0 < r0[m].0);
                            }
                        }
                    }
                }
                if j != to && row_has(r0, j, e) {
                    let m = choose|m: int| 0 <= m < r0.len() && #[trigger] r0[m] == (j, e);
                    assert(row@[m] == (j, e));
                }
                if j == to && e == observed(r0, to, risk) {
                    assert(row@[k as int] == (j, e));
                }
            }
        }
    } else {
        let ghost before = row@;
        assert(!row_key(r0, to)) by {
            if row_key(r0, to) {
                let c = choose|m: int| 0 <= m < r0.len() && (#[trigger] r0[m]).0 == to;
                if c >= k && k < r0.len() {
                    if c > k {
                        assert(r0[k as int].0 < r0[c].0);
                    }
                }
            }
        }
        row.insert(k, (to, EdgeData { observations: 1, risk }));
        proof {
            assert forall|a: int, b: int| 0 <= a < b < row@.len() implies (#[trigger] row@[a]).0 < (#[trigger] row@[b]).0 by {
                if b < k {
                } else if a < k && b == k {
                } else if a < k {
                    assert(row@[b] == r0[b - 1]);
                    if a < b - 1 {
                        assert(r0[a].0 < r0[b - 1].0);
                    }
                } else if a == k {
                    assert(row@[b] == r0[b - 1]);
                } else {
                    assert(row@[a] == r0[a - 1]);
                    assert(row@[b] == r0[b - 1]);
                }
            }
            assert forall|j: usize, e: EdgeData|
                #![trigger row_has(row@, j, e)]
                #![trigger row_has(r0, j, e)]
                row_has(row@, j, e) <==> ((j != to && row_has(r0, j, e)) || (j == to && e == observed(r0, to, risk))) by {
                if row_has(row@, j, e) {
                    let m = choose|m: int| 0 <= m < row@.len() && #[trigger] row@[m] == (j, e);
                    if m < k {
                        assert(r0[m] == (j, e));
                    } else if m > k {
                        assert(r0[m - 1] == (j, e));
                        if j == to {
                            assert(row_key(r0, to));
                        }
                    }
                }
                if j != to && row_has(r0, j, e) {
                    let m = choose|m: int| 0 <= m < r0.len() && #[trigger] r0[m] == (j, e);
                    if m < k {
                        assert(row@[m] == (j, e));
                    } else {
                        assert(row@[m + 1] == (j, e));
                    }
                }
                if j == to && e == observed(r0, to, risk) {
                    assert(row@[k as int] == (j, e));
                }
            }
        }
    }
}

/// Entities connected by co-occurrence in events. Nodes are numbered in
/// order of first appearance; each node's neighbours are listed in
/// increasing order.
pub struct EntityGraph {
    labels: Vec<String>,
    lookup: PrefixTrie,
    adjacency: Vec<Vec<(usize, EdgeData)>>,
    components: Vec<usize>,
    model: Ghost<GraphModel>,
}

impl EntityGraph {
    /// The node labels, by node number.
    pub closed spec fn label_seq(self) -> Seq<Seq<char>> {
        self.labels@.map_values(|s: String| s@)
    }

    /// The graph as labels and labelled edges.
    pub closed spec fn model(self) -> GraphModel {
        self.model@
    }

    /// Labels are distinct and the lookup finds each label's number.
    pub closed spec fn labels_ok(self) -> bool {
        let n = self.labels.len();
        &&& self.lookup.wf()
        &&& forall|k: Seq<char>, x: usize|
            #[trigger] self.lookup.contents().contains((k, x)) <==> (x < n && self.label_seq()[x as int] == k)
        &&& forall|i: int, j: int| 0 <= i < j < n ==> self.label_seq()[i] != self.label_seq()[j]
        &&& self.adjacency.len() == n
    }

    /// The neighbour lists hold exactly the model's edges.
    pub closed spec fn edges_ok(self) -> bool {
        let n = self.labels.len();
        let m = self.model@;
        let l = self.label_seq();
        &&& m.labels == l
        &&& forall|i: int| 0 <= i < n ==> row_sorted(#[trigger] self.adjacency@[i]@)
        &&& forall|i: int, k: int|
            0 <= i < n && 0 <= k < self.adjacency@[i]@.len() ==> (#[trigger] self.adjacency@[i]@[k]).0 < n
        &&& forall|i: int, j: usize, d: EdgeData|
            0 <= i < n && j < n ==> (#[trigger] row_has(self.adjacency@[i]@, j, d) <==> (m.edges.contains_key(
                (l[i], l[j as int]),
            ) && m.edges[(l[i], l[j as int])] == (d.observations as int, d.risk as int)))
        &&& forall|a: Seq<char>, b: Seq<char>|
            #[trigger] m.edges.contains_key((a, b)) ==> {
                &&& l.contains(a)
                &&& l.contains(b)
                &&& 0 <= m.edges[(a, b)].0 <= u32::MAX
                &&& 0 <= m.edges[(a, b)].1 <= u32::MAX
                &&& a != b
                &&& m.edges.contains_key((b, a))
                &&& m.edges[(b, a)] == m.edges[(a, b)]
            }
    }

    /// Number of the node with the given label, adding the node if new.
    fn ensure_node(&mut self, label: &[char]) -> (id: usize)
        requires
            old(self).labels_ok(),
            old(self).labels.len() < usize::MAX,
        ensures
            final(self).labels_ok(),
            final(self).label_seq() == add_label(old(self).label_seq(), label@),
            id < final(self).labels.len(),
            final(self).label_seq()[id as int] == label@,
            forall|i: int| 0 <= i < old(self).labels.len() ==> final(self).adjacency@[i] == old(self).adjacency@[i],
            old(self).labels.len() < final(self).labels.len() ==> final(self).adjacency@[old(self).labels.len() as int]@.len() == 0,
            final(self).model == old(self).model,
            final(self).components == old(self).components,
    {
        let found = self.lookup.find_exact(label);
        if found.len() > 0 {
            let id = found[0];
            assert(found@.contains(id));
            assert(self.label_seq().contains(label@));
            return id;
        }
        assert(!self.label_seq().contains(label@)) by {
            if self.label_seq().contains(label@) {
                let x = choose|x: int| 0 <= x < self.label_seq().len() && self.label_seq()[x] == label@;
                assert(self.lookup.contents().contains((label@, x as usize)));
                assert(found@.contains(x as usize));
            }
        }
        let id = self.labels.len();
        let ghost l0 = self.label_seq();
        self.labels.push(string_of(label));
        assert(self.label_seq() =~= l0.push(label@));
        self.lookup.insert(label, id);
        self.adjacency.push(Vec::new());
        id
    }
}

impl EntityGraph {
    /// Observes the pair `a`, `b` once more, with risk `risk`.
    fn connect(&mut self, a: &[char], b: &[char], risk: u32)
        requires
            old(self).labels_ok(),
            old(self).edges_ok(),
            a@ != b@,
            old(self).labels.len() + 2 < usize::MAX,
            old(self).model().edges.contains_key((a@, b@)) ==> old(self).model().edges[(a@, b@)].0 < u32::MAX,
            old(self).model().edges.contains_key((b@, a@)) ==> old(self).model().edges[(b@, a@)].0 < u32::MAX,
        ensures
            final(self).labels_ok(),
            final(self).edges_ok(),
            final(self).model() == connect_model(old(self).model(), a@, b@, risk as int),
            final(self).components == old(self).components,
    {
        let ghost m0 = self.model@;
        let ghost n0 = self.labels.len();
        let ghost adj0 = self.adjacency@;
        let ia = self.ensure_node(a);
        assert(self.label_seq().len() == self.labels.len());
        let ghost l_mid = self.label_seq();
        let ib = self.ensure_node(b);
        let ghost l = self.label_seq();
        let ghost n = self.labels.len();
        let ghost m1 = connect_model(m0, a@, b@, risk as int);
        assert(l == m1.labels);
        assert(l[ia as int] == a@) by {
            assert(l_mid[ia as int] == a@);
        }
        assert(l[ib as int] == b@);
        assert(ia != ib);
        assert(forall|i: int| 0 <= i < n0 ==> l[i] == m0.labels[i]);
        proof {
            assert forall|i: int| 0 <= i < n implies row_sorted(#[trigger] self.adjacency@[i]@) by {
                if i < n0 {
                    assert(self.adjacency@[i] == adj0[i]);
                }
            }
            assert forall|i: int, k: int|
                0 <= i < n && 0 <= k < self.adjacency@[i]@.len() implies (#[trigger] self.adjacency@[i]@[k]).0 < n0 by {
                assert(i < n0);
                assert(self.adjacency@[i] == adj0[i]);
            }
            assert forall|i: int, j: usize, d: EdgeData|
                0 <= i < n && j < n implies (#[trigger] row_has(self.adjacency@[i]@, j, d) <==> (m0.edges.contains_key(
                (l[i], l[j as int]),
            ) && m0.edges[(l[i], l[j as int])] == (d.observations as int, d.risk as int))) by {
                if i < n0 {
                    assert(self.adjacency@[i] == adj0[i]);
                    if j >= n0 {
                        if row_has(self.adjacency@[i]@, j, d) {
                            let k = choose|k: int| 0 <= k < self.adjacency@[i]@.len() && #[trigger] self.adjacency@[i]@[k] == (j, d);
                            assert(adj0[i]@[k].0 < n0);
                        }
                        if m0.edges.contains_key((l[i], l[j as int])) {
                            assert(m0.labels.contains(l[j as int]));
                            let q = choose|q: int| 0 <= q < m0.labels.len() && m0.labels[q] == l[j as int];
                            assert(l[q] == l[j as int]);
                        }
                    }
                } else {
                    if m0.edges.contains_key((l[i], l[j as int])) {
                        assert(m0.labels.contains(l[i]));
                        let q = choose|q: int| 0 <= q < m0.labels.len() && m0.labels[q] == l[i];
                        assert(l[q] == l[i]);
                    }
                }
            }
        }
        let ghost row_a = self.adjacency@[ia as int]@;
        assert(row_key(row_a, ib) <==> m0.edges.contains_key((a@, b@))) by {
            if row_key(row_a, ib) {
                let k = choose|k: int| 0 <= k < row_a.len() && (#[trigger] row_a[k]).0 == ib;
                assert(row_has(row_a, ib, row_a[k].1));
            }
            if m0.edges.contains_key((a@, b@)) {
                let d = EdgeData { observations: m0.edges[(a@, b@)].0 as u32, risk: m0.edges[(a@, b@)].1 as u32 };
                assert(row_has(row_a, ib, d));
            }
        }
        let ghost row_b = self.adjacency@[ib as int]@;
        assert(row_key(row_b, ia) <==> m0.edges.contains_key((b@, a@))) by {
            if row_key(row_b, ia) {
                let k = choose|k: int| 0 <= k < row_b.len() && (#[trigger] row_b[k]).0 == ia;
                assert(row_has(row_b, ia, row_b[k].1));
            }
            if m0.edges.contains_key((b@, a@)) {
                let d = EdgeData { observations: m0.edges[(b@, a@)].0 as u32, risk: m0.edges[(b@, a@)].1 as u32 };
                assert(row_has(row_b, ia, d));
            }
        }
        let ghost adj1 = self.adjacency@;
        assert(row_key(row_a, ib) ==> row_val(row_a, ib).observations < u32::MAX) by {
            if row_key(row_a, ib) {
                let k = choose|k: int| 0 <= k < row_a.len() && (#[trigger] row_a[k]).0 == ib;
                assert(row_has(row_a, ib, row_a[k].1));
            }
        }
        assert(row_key(row_b, ia) ==> row_val(row_b, ia).observations < u32::MAX) by {
            if row_key(row_b, ia) {
                let k = choose|k: int| 0 <= k < row_b.len() && (#[trigger] row_b[k]).0 == ia;
                assert(row_has(row_b, ia, row_b[k].1));
            }
        }
        observe_row(&mut self.adjacency[ia], ib, risk);
        observe_row(&mut self.adjacency[ib], ia, risk);
        proof {
            self.model@ = m1;
            assert forall|i: int| 0 <= i < n implies row_sorted(#[trigger] self.adjacency@[i]@) by {
                if i != ia && i != ib {
                    assert(self.adjacency@[i] == adj1[i]);
                }
            }
            assert forall|i: int, k: int|
                0 <= i < n && 0 <= k < self.adjacency@[i]@.len() implies (#[trigger] self.adjacency@[i]@[k]).0 < n by {
                if i != ia && i != ib {
                    assert(self.adjacency@[i] == adj1[i]);
                } else {
                    let e = self.adjacency@[i]@[k];
                    assert(row_has(self.adjacency@[i]@, e.0, e.1));
                }
            }
            assert forall|i: int, j: usize, d: EdgeData|
                0 <= i < n && j < n implies (#[trigger] row_has(self.adjacency@[i]@, j, d) <==> (m1.edges.contains_key(
                (l[i], l[j as int]),
            ) && m1.edges[(l[i], l[j as int])] == (d.observations as int, d.risk as int))) by {
                assert(row_has(adj1[i]@, j, d) <==> (m0.edges.contains_key((l[i], l[j as int])) && m0.edges[(l[i], l[j as int])] == (d.observations as int, d.risk as int)));
                if i != ia && i != ib {
                    assert(self.adjacency@[i] == adj1[i]);
                    assert(l[i] != a@ && l[i] != b@);
                } else if i == ia {
                    if j != ib {
                        assert(l[j as int] != b@);
                    } else {
                        if row_key(row_a, ib) {
                            let k = choose|k: int| 0 <= k < row_a.len() && (#[trigger] row_a[k]).0 == ib;
                            assert(row_has(row_a, ib, row_a[k].1));
                        }
                    }
                } else {
                    if j != ia {
                        assert(l[j as int] != a@);
                    } else {
                        if row_key(row_b, ia) {
                            let k = choose|k: int| 0 <= k < row_b.len() && (#[trigger] row_b[k]).0 == ia;
                            assert(row_has(row_b, ia, row_b[k].1));
                        }
                    }
                }
            }
            assert forall|x: Seq<char>, y: Seq<char>|
                #[trigger] m1.edges.contains_key((x, y)) implies {
                    &&& l.contains(x)
                    &&& l.contains(y)
                    &&& 0 <= m1.edges[(x, y)].0 <= u32::MAX
                    &&& 0 <= m1.edges[(x, y)].1 <= u32::MAX
                    &&& x != y
                    &&& m1.edges.contains_key((y, x))
                    &&& m1.edges[(y, x)] == m1.edges[(x, y)]
                } by {
                if (x, y) == (a@, b@) || (x, y) == (b@, a@) {
                    assert(l[ia as int] == a@ && l[ib as int] == b@);
                    assert(obs_of(m0, a@, b@) == obs_of(m0, b@, a@));
                } else {
                    assert(m0.edges.contains_key((x, y)));
                    let p = choose|p: int| 0 <= p < m0.labels.len() && m0.labels[p] == x;
                    let q = choose|q: int| 0 <= q < m0.labels.len() && m0.labels[q] == y;
                    assert(l[p] == x && l[q] == y);
                }
            }
        }
    }
}

/// Observation count of an ordered pair, zero when never observed.
pub open spec fn obs_of(m: GraphModel, a: Seq<char>, b: Seq<char>) -> int {
    if m.edges.contains_key((a, b)) {
        m.edges[(a, b)].0
    } else {
        0
    }
}

/// The labels an event names are distinct.
proof fn lemma_entities_distinct(e: EventRecord)
    ensures
        entity_labels(e).len() <= 3,
        forall|i: int, j: int| 0 <= i < j < entity_labels(e).len() ==> entity_labels(e)[i] != entity_labels(e)[j],
{
    reveal_strlit("user:");
    reveal_strlit("host:");
    reveal_strlit("ip:");
    let l = entity_labels(e);
    assert forall|i: int, j: int| 0 <= i < j < l.len() implies l[i] != l[j] by {
        assert(l[i][0] != l[j][0]);
    }
}

/// One event adds at most one observation to each ordered pair.
proof fn lemma_event_obs(m: GraphModel, e: EventRecord, a: Seq<char>, b: Seq<char>)
    ensures
        obs_of(m, a, b) <= obs_of(event_model(m, e), a, b) <= obs_of(m, a, b) + 1,
{
    lemma_entities_distinct(e);
}

/// After `k` events no pair has more than `k` observations.
proof fn lemma_obs_bound(events: Seq<EventRecord>, a: Seq<char>, b: Seq<char>)
    ensures
        0 <= obs_of(graph_model(events), a, b) <= events.len(),
    decreases events.len(),
{
    if events.len() > 0 {
        lemma_obs_bound(events.drop_last(), a, b);
        lemma_event_obs(graph_model(events.drop_last()), events.last(), a, b);
    }
}

/// An event adds at most three labels.
proof fn lemma_event_labels(m: GraphModel, e: EventRecord)
    ensures
        m.labels.len() <= event_model(m, e).labels.len() <= m.labels.len() + 3,
{
    lemma_entities_distinct(e);
    let ents = entity_labels(e);
    if ents.len() >= 3 {
        let m1 = connect_model(m, ents[0], ents[1], e.severity.weight() as int);
        assert(m1.labels.contains(ents[0])) by {
            if !m.labels.contains(ents[0]) {
                assert(add_label(m.labels, ents[0]).last() == ents[0]);
            }
            let l1 = add_label(m.labels, ents[0]);
            assert(l1.contains(ents[0]));
            if !l1.contains(ents[1]) {
                assert(l1.push(ents[1]).subrange(0, l1.len() as int) =~= l1);
                let q = choose|q: int| 0 <= q < l1.len() && l1[q] == ents[0];
                assert(m1.labels[q] == ents[0]);
            }
        }
        assert(m1.labels.contains(ents[1])) by {
            let l1 = add_label(m.labels, ents[0]);
            if !l1.contains(ents[1]) {
                assert(m1.labels.last() == ents[1]);
            }
        }
        let m2 = connect_model(m1, ents[0], ents[2], e.severity.weight() as int);
        assert(m2.labels.contains(ents[1])) by {
            let q = choose|q: int| 0 <= q < m1.labels.len() && m1.labels[q] == ents[1];
            let l2 = add_label(m1.labels, ents[0]);
            assert(l2 == m1.labels);
            if !l2.contains(ents[2]) {
                assert(m2.labels[q] == ents[1]);
            }
        }
        assert(m2.labels.contains(ents[2])) by {
            let l2 = add_label(m1.labels, ents[0]);
            if !l2.contains(ents[2]) {
                assert(m2.labels.last() == ents[2]);
            }
        }
    }
}

/// After `k` events there are at most `3 k` labels.
proof fn lemma_label_bound(events: Seq<EventRecord>)
    ensures
        graph_model(events).labels.len() <= 3 * events.len(),
    decreases events.len(),
{
    if events.len() > 0 {
        lemma_label_bound(events.drop_last());
        lemma_event_labels(graph_model(events.drop_last()), events.last());
    }
}

/// `prefix` followed by the value's characters.
fn prefixed(prefix: &str, value: &String) -> (r: Vec<char>)
    ensures
        r@ == prefix@ + value@,
{
    let mut r = chars_of(prefix);
    let v = chars_of(value.as_str());
    crate::text::extend_chars(&mut r, v.as_slice());
    r
}

/// The labels of the entities an event names.
fn event_entities(e: &EventRecord) -> (r: Vec<Vec<char>>)
    ensures
        crate::text::views(r@) == entity_labels(*e),
{
    let mut r: Vec<Vec<char>> = Vec::new();
    let ghost mut expect: Seq<Seq<char>> = Seq::empty();
    match &e.user {
        Some(u) => {
            r.push(prefixed("user:", u));
            proof {
                expect = expect.push("user:"@ + u@);
            }
        },
        None => {},
    }
    match &e.host {
        Some(h) => {
            r.push(prefixed("host:", h));
            proof {
                expect = expect.push("host:"@ + h@);
            }
        },
        None => {},
    }
    match &e.source_ip {
        Some(ip) => {
            r.push(prefixed("ip:", ip));
            proof {
                expect = expect.push("ip:"@ + ip@);
            }
        },
        None => {},
    }
    assert(expect =~= entity_labels(*e));
    assert(crate::text::views(r@) =~= expect);
    r
}

impl GraphModel {
    /// Nodes `i` and `j` are joined by an edge.
    pub open spec fn linked(self, i: int, j: int) -> bool {
        0 <= i < self.labels.len() && 0 <= j < self.labels.len() && self.edges.contains_key((self.labels[i], self.labels[j]))
    }

    /// The `k`-th step of `p` follows an edge.
    pub open spec fn walk_step(self, p: Seq<int>, k: int) -> bool {
        self.linked(p[k], p[k + 1])
    }

    /// `p` is a walk along edges.
    pub open spec fn is_walk(self, p: Seq<int>) -> bool {
        &&& p.len() >= 1
        &&& forall|k: int| 0 <= k < p.len() ==> 0 <= #[trigger] p[k] < self.labels.len()
        &&& forall|k: int| 0 <= k < p.len() - 1 ==> #[trigger] self.walk_step(p, k)
    }

    /// Some walk leads from `a` to `b`.
    pub open spec fn connected(self, a: int, b: int) -> bool {
        exists|p: Seq<int>| #[trigger] self.is_walk(p) && p[0] == a && p.last() == b
    }

    /// Every edge is recorded in both directions.
    pub open spec fn symmetric(self) -> bool {
        forall|a: Seq<char>, b: Seq<char>|
            #[trigger] self.edges.contains_key((a, b)) ==> self.edges.contains_key((b, a))
    }

    proof fn lemma_walk_concat(self, p: Seq<int>, q: Seq<int>)
        requires
            self.is_walk(p),
            self.is_walk(q),
            p.last() == q[0],
        ensures
            self.is_walk(p + q.drop_first()),
            (p + q.drop_first())[0] == p[0],
            (p + q.drop_first()).last() == q.last(),
    {
        let r = p + q.drop_first();
        assert forall|k: int| 0 <= k < r.len() - 1 implies #[trigger] self.walk_step(r, k) by {
            if k < p.len() - 1 {
                assert(self.walk_step(p, k));
            } else {
                assert(self.walk_step(q, k - p.len() + 1));
            }
        }
        assert forall|k: int| 0 <= k < r.len() implies 0 <= #[trigger] r[k] < self.labels.len() by {
            if k < p.len() {
                assert(r[k] == p[k]);
            } else {
                assert(r[k] == q[k - p.len() + 1]);
            }
        }
    }

    /// Values along a walk are all equal when every edge joins equal values.
    proof fn lemma_walk_constant(self, p: Seq<int>, c: Seq<usize>)
        requires
            self.is_walk(p),
            c.len() == self.labels.len(),
            forall|i: int, j: int| #[trigger] self.linked(i, j) ==> c[i] == c[j],
        ensures
            c[p[0]] == c[p.last()],
        decreases p.len(),
    {
        if p.len() > 1 {
            let q = p.drop_last();
            assert(self.is_walk(q)) by {
                assert forall|k: int| 0 <= k < q.len() - 1 implies #[trigger] self.walk_step(q, k) by {
                    assert(self.walk_step(p, k));
                }
                assert forall|k: int| 0 <= k < q.len() implies 0 <= #[trigger] q[k] < self.labels.len() by {
                    assert(q[k] == p[k]);
                }
            }
            self.lemma_walk_constant(q, c);
            assert(self.walk_step(p, p.len() - 2));
        }
    }
}

/// The unions that numbering components makes for node `f`: with each of
/// its neighbours, in increasing order.
pub open spec fn row_pairs(m: GraphModel, f: int) -> Seq<(int, int)> {
    index_positions(|j: int| m.linked(f, j), m.labels.len() as int).map_values(|j: usize| (f, j as int))
}

/// The unions made for the first `k` nodes, in node order.
pub open spec fn union_pairs(m: GraphModel, k: int) -> Seq<(int, int)>
    decreases k,
{
    if k <= 0 {
        Seq::empty()
    } else {
        union_pairs(m, k - 1) + row_pairs(m, k - 1)
    }
}

/// Component numbers: the root each node's set has in a union-find
/// (union by rank, the first operand's root kept on a tie) after the
/// unions of every node with its neighbours.
pub open spec fn component_roots(m: GraphModel) -> Seq<usize> {
    union_run(m.labels.len(), union_pairs(m, m.labels.len() as int)).0
}

impl EntityGraph {
    /// Component numbers: node numbers, equal exactly for connected nodes.
    pub closed spec fn components_ok(self) -> bool {
        let n = self.labels.len();
        &&& self.components.len() == n
        &&& forall|i: int| 0 <= i < n ==> #[trigger] self.components@[i] < n
        &&& forall|i: int, j: int|
            0 <= i < n && 0 <= j < n ==> (self.components@[i] == self.components@[j] <==> self.model@.connected(i, j))
        &&& self.components@ == component_roots(self.model@)
    }

    /// The component number of each node.
    pub closed spec fn component_seq(self) -> Seq<usize> {
        self.components@
    }

    /// The graph's invariant.
    pub closed spec fn wf(self) -> bool {
        self.labels_ok() && self.edges_ok() && self.components_ok()
    }

    /// What the invariant tells a caller: the model's labels are the node
    /// labels, no label occurs twice, and each node has a component number
    /// below the node count, shared with exactly the nodes a walk reaches.
    pub proof fn lemma_wf_facts(self)
        requires
            self.wf(),
        ensures
            self.model().labels == self.label_seq(),
            forall|i: int, j: int|
                0 <= i < j < self.label_seq().len() ==> self.label_seq()[i] != self.label_seq()[j],
            self.component_seq().len() == self.label_seq().len(),
            self.component_seq() == component_roots(self.model()),
            forall|i: int| 0 <= i < self.label_seq().len() ==> #[trigger] self.component_seq()[i] < self.label_seq().len(),
            forall|i: int, j: int|
                0 <= i < self.label_seq().len() && 0 <= j < self.label_seq().len() ==> (#[trigger] self.component_seq()[i]
                    == #[trigger] self.component_seq()[j] <==> self.model().connected(i, j)),
    {
    }

    proof fn lemma_linked_row(self, i: int, j: usize)
        requires
            self.labels_ok(),
            self.edges_ok(),
            0 <= i < self.labels.len(),
            j < self.labels.len(),
        ensures
            self.model@.linked(i, j as int) <==> row_key(self.adjacency@[i]@, j),
            self.model@.symmetric(),
    {
        let l = self.label_seq();
        let m = self.model@;
        let row = self.adjacency@[i]@;
        if row_key(row, j) {
            let k = choose|k: int| 0 <= k < row.len() && (#[trigger] row[k]).0 == j;
            assert(row_has(row, j, row[k].1));
        }
        if m.edges.contains_key((l[i], l[j as int])) {
            let v = m.edges[(l[i], l[j as int])];
            let d = EdgeData { observations: v.0 as u32, risk: v.1 as u32 };
            assert(row_has(row, j, d));
        }
    }
}

impl EntityGraph {
    /// Numbers the connected components with a union-find.
    fn rebuild_components(&mut self)
        requires
            old(self).labels_ok(),
            old(self).edges_ok(),
        ensures
            final(self).wf(),
            final(self).label_seq() == old(self).label_seq(),
            final(self).model() == old(self).model(),
    {
        let n = self.labels.len();
        let mut uf = UnionFind::new(n);
        proof {
            assert forall|x: int, y: int|
                0 <= x < n && 0 <= y < n && uf.reps()[x] == uf.reps()[y] implies self.model@.connected(x, y) by {
                let p = seq![x];
                assert(self.model@.is_walk(p));
            }
        }
        let mut from: usize = 0;
        while from < n
            invariant
                n == self.labels.len(),
                self.labels_ok(),
                self.edges_ok(),
                from <= n,
                uf.wf(),
                uf.size() == n,
                uf.reps().len() == n,
                forall|x: int, y: int|
                    0 <= x < n && 0 <= y < n && uf.reps()[x] == uf.reps()[y] ==> self.model@.connected(x, y),
                forall|f: int, k: int|
                    0 <= f < from && 0 <= k < self.adjacency@[f]@.len() ==> uf.reps()[f] == uf.reps()[(
                    #[trigger] self.adjacency@[f]@[k]).0 as int],
                (uf.reps(), uf.ranks()) == union_run(n as nat, union_pairs(self.model@, from as int)),
            decreases n - from,
        {
            let ghost m = self.model@;
            let ghost row = self.adjacency@[from as int]@;
            let ghost keys = row.map_values(|e: (usize, EdgeData)| e.0);
            proof {
                assert(m.labels.len() == n);
                assert(sorted_unique(keys)) by {
                    assert forall|x: int, y: int| 0 <= x < y < keys.len() implies keys[x] < keys[y] by {
                        assert(row[x].0 < row[y].0);
                    }
                }
                assert forall|j: usize| keys.contains(j) <==> (j < n && m.linked(from as int, j as int)) by {
                    if keys.contains(j) {
                        let t = choose|t: int| 0 <= t < keys.len() && keys[t] == j;
                        assert(row[t].0 == j);
                        assert(j < n);
                        self.lemma_linked_row(from as int, j);
                    }
                    if j < n && m.linked(from as int, j as int) {
                        self.lemma_linked_row(from as int, j);
                        let t = choose|t: int| 0 <= t < row.len() && (#[trigger] row[t]).0 == j;
                        assert(keys[t] == j);
                    }
                }
                lemma_index_positions_unique(keys, |j: int| m.linked(from as int, j), n as int);
                assert(union_pairs(m, from as int) + row_pairs(m, from as int).take(0) =~= union_pairs(m, from as int));
            }
            let mut k: usize = 0;
            while k < self.adjacency[from].len()
                invariant
                    n == self.labels.len(),
                    self.labels_ok(),
                    self.edges_ok(),
                    from < n,
                    uf.wf(),
                    uf.size() == n,
                    uf.reps().len() == n,
                    forall|x: int, y: int|
                        0 <= x < n && 0 <= y < n && uf.reps()[x] == uf.reps()[y] ==> self.model@.connected(x, y),
                    forall|f: int, kk: int|
                        0 <= f < from && 0 <= kk < self.adjacency@[f]@.len() ==> uf.reps()[f] == uf.reps()[(
                        #[trigger] self.adjacency@[f]@[kk]).0 as int],
                    forall|kk: int|
                        0 <= kk < k ==> uf.reps()[from as int] == uf.reps()[(
                        #[trigger] self.adjacency@[from as int]@[kk]).0 as int],
                    m == self.model@,
                    row == self.adjacency@[from as int]@,
                    k <= row.len(),
                    keys == row.map_values(|e: (usize, EdgeData)| e.0),
                    keys == index_positions(|j: int| m.linked(from as int, j), n as int),
                    m.labels.len() == n,
                    (uf.reps(), uf.ranks()) == union_run(
                        n as nat,
                        union_pairs(m, from as int) + row_pairs(m, from as int).take(k as int),
                    ),
                decreases self.adjacency@[from as int]@.len() - k,
            {
                let to = self.adjacency[from][k].0;
                assert(to < n);
                proof {
                    let row = self.adjacency@[from as int]@;
                    assert(row_key(row, to));
                    self.lemma_linked_row(from as int, to);
                }
                let ghost r0 = uf.reps();
                uf.union(from, to);
                proof {
                    let pre = union_pairs(m, from as int) + row_pairs(m, from as int).take(k as int);
                    let post = union_pairs(m, from as int) + row_pairs(m, from as int).take(k + 1);
                    assert(row_pairs(m, from as int)[k as int] == (from as int, to as int));
                    assert(post =~= pre.push((from as int, to as int)));
                    assert(post.drop_last() =~= pre);
                    let r1 = uf.reps();
                    assert forall|x: int, y: int|
                        0 <= x < n && 0 <= y < n && r1[x] == r1[y] implies self.model@.connected(x, y) by {
                        if r0[x] == r0[y] {
                        } else if r0[x] == r0[from as int] && r0[y] == r0[to as int] {
                            assert(self.model@.connected(x, from as int));
                            assert(self.model@.connected(to as int, y));
                            let p1 = choose|p: Seq<int>| #[trigger] self.model@.is_walk(p) && p[0] == x && p.last() == from as int;
                            let p2 = choose|p: Seq<int>| #[trigger] self.model@.is_walk(p) && p[0] == to as int && p.last() == y;
                            let e = seq![from as int, to as int];
                            assert(self.model@.walk_step(e, 0));
                            assert(self.model@.is_walk(e));
                            self.model@.lemma_walk_concat(p1, e);
                            self.model@.lemma_walk_concat(p1 + e.drop_first(), p2);
                        } else {
                            assert(r0[x] == r0[to as int] && r0[y] == r0[from as int]);
                            assert(self.model@.connected(x, to as int));
                            assert(self.model@.connected(from as int, y));
                            let p1 = choose|p: Seq<int>| #[trigger] self.model@.is_walk(p) && p[0] == x && p.last() == to as int;
                            let p2 = choose|p: Seq<int>| #[trigger] self.model@.is_walk(p) && p[0] == from as int && p.last() == y;
                                                        let e = seq![to as int, from as int];
                            assert(self.model@.walk_step(e, 0));
                            assert(self.model@.is_walk(e));
                            self.model@.lemma_walk_concat(p1, e);
                            self.model@.lemma_walk_concat(p1 + e.drop_first(), p2);
                        }
                    }
                }
                k += 1;
            }
            proof {
                assert(k == row.len());
                assert(row_pairs(m, from as int).len() == keys.len());
                assert(row_pairs(m, from as int).take(k as int) =~= row_pairs(m, from as int));
                assert(union_pairs(m, from + 1) == union_pairs(m, from as int) + row_pairs(m, from as int));
            }
            from += 1;
        }
        let ghost reps0 = uf.reps();
        let mut components: Vec<usize> = Vec::new();
        let mut id: usize = 0;
        while id < n
            invariant
                n == self.labels.len(),
                id <= n,
                uf.wf(),
                uf.size() == n,
                uf.reps().len() == n,
                uf.reps() == reps0,
                components.len() == id,
                forall|x: int| 0 <= x < id ==> #[trigger] components@[x] == uf.reps()[x],
            decreases n - id,
        {
            let c = uf.find(id);
            components.push(c);
            id += 1;
        }
        self.components = components;
        proof {
            assert(self.model@.labels.len() == n);
            assert(self.components@ =~= reps0);
            let reps = uf.reps();
            assert forall|i: int, j: int| #[trigger] self.model@.linked(i, j) implies reps[i] == reps[j] by {
                let row = self.adjacency@[i]@;
                self.lemma_linked_row(i, j as usize);
                let k = choose|k: int| 0 <= k < row.len() && (#[trigger] row[k]).0 == j as usize;
                assert(self.adjacency@[i]@[k].0 == j as usize);
                assert(reps[i] == reps[self.adjacency@[i]@[k].0 as int]);
            }
            assert forall|i: int| 0 <= i < n implies #[trigger] self.components@[i] < n by {
                assert(uf.reps()[i] < n) by {
                    uf.lemma_reps_bounded(i);
                }
            }
            assert forall|i: int, j: int|
                0 <= i < n && 0 <= j < n implies (self.components@[i] == self.components@[j] <==> self.model@.connected(i, j)) by {
                if self.model@.connected(i, j) {
                    let p = choose|p: Seq<int>| #[trigger] self.model@.is_walk(p) && p[0] == i && p.last() == j;
                    self.model@.lemma_walk_constant(p, reps);
                }
            }
        }
    }
}

impl EntityGraph {
    /// Builds the graph of the entities that the events name together.
    pub fn build(events: &[EventRecord]) -> (g: EntityGraph)
        requires
            events@.len() < u32::MAX,
            events@.len() < usize::MAX / 4,
        ensures
            g.wf(),
            g.model() == graph_model(events@),
    {
        let mut graph = EntityGraph {
            labels: Vec::new(),
            lookup: PrefixTrie::new(),
            adjacency: Vec::new(),
            components: Vec::new(),
            model: Ghost(GraphModel { labels: Seq::empty(), edges: Map::empty() }),
        };
        assert(graph.label_seq() =~= Seq::<Seq<char>>::empty());
        assert(events@.take(0) =~= Seq::<EventRecord>::empty());
        let mut i: usize = 0;
        while i < events.len()
            invariant
                i <= events.len(),
                events@.len() < u32::MAX,
                events@.len() < usize::MAX / 4,
                graph.labels_ok(),
                graph.edges_ok(),
                graph.model() == graph_model(events@.take(i as int)),
            decreases events.len() - i,
        {
            let e = &events[i];
            let ghost m0 = graph.model();
            proof {
                lemma_label_bound(events@.take(i as int));
                lemma_entities_distinct(*e);
            }
            let ents = event_entities(e);
            let ghost el = entity_labels(*e);
            let risk = e.severity.score();
            let ghost r = risk as int;
            if ents.len() >= 2 {
                proof {
                    lemma_obs_bound(events@.take(i as int), el[0], el[1]);
                    lemma_obs_bound(events@.take(i as int), el[1], el[0]);
                    assert(ents@[0]@ == el[0] && ents@[1]@ == el[1]);
                }
                graph.connect(ents[0].as_slice(), ents[1].as_slice(), risk);
            }
            if ents.len() >= 3 {
                let ghost m1 = graph.model();
                proof {
                    lemma_obs_bound(events@.take(i as int), el[0], el[2]);
                    lemma_obs_bound(events@.take(i as int), el[2], el[0]);
                    assert(obs_of(m1, el[0], el[2]) == obs_of(m0, el[0], el[2]));
                    assert(obs_of(m1, el[2], el[0]) == obs_of(m0, el[2], el[0]));
                    assert(ents@[2]@ == el[2]);
                    assert(graph.label_seq().len() == graph.labels.len());
                    assert(m0.labels.len() <= 3 * i);
                    assert(graph.labels.len() <= 3 * i + 2);
                }
                graph.connect(ents[0].as_slice(), ents[2].as_slice(), risk);
                let ghost m2 = graph.model();
                proof {
                    lemma_obs_bound(events@.take(i as int), el[1], el[2]);
                    lemma_obs_bound(events@.take(i as int), el[2], el[1]);
                    assert(obs_of(m2, el[1], el[2]) == obs_of(m0, el[1], el[2]));
                    assert(obs_of(m2, el[2], el[1]) == obs_of(m0, el[2], el[1]));
                    assert(graph.label_seq().len() == graph.labels.len());
                    assert(m1.labels.len() <= 3 * i + 2);
                    assert(graph.labels.len() <= 3 * i + 4);
                }
                graph.connect(ents[1].as_slice(), ents[2].as_slice(), risk);
            }
            proof {
                assert(events@.take(i + 1).drop_last() =~= events@.take(i as int));
            }
            i += 1;
        }
        assert(events@.take(events@.len() as int) =~= events@);
        graph.rebuild_components();
        graph
    }
}

/// Position of the first `:` in a label.
pub open spec fn colon_pos(s: Seq<char>) -> Option<int>
    decreases s.len(),
{
    if s.len() == 0 {
        None
    } else if s[0] == ':' {
        Some(0)
    } else {
        match colon_pos(s.drop_first()) {
            Some(p) => Some(p + 1),
            None => None,
        }
    }
}

/// The kind a label names: the text before its first `:`, else `entity`.
pub open spec fn label_kind(s: Seq<char>) -> Seq<char> {
    match colon_pos(s) {
        Some(p) => s.take(p),
        None => "entity"@,
    }
}

/// The value a label names: the text after its first `:`, else all of it.
pub open spec fn label_value(s: Seq<char>) -> Seq<char> {
    match colon_pos(s) {
        Some(p) => s.skip(p + 1),
        None => s,
    }
}

proof fn lemma_colon_pos(s: Seq<char>, i: int)
    requires
        0 <= i <= s.len(),
        forall|j: int| 0 <= j < i ==> s[j] != ':',
    ensures
        i < s.len() && s[i] == ':' ==> colon_pos(s) == Some(i),
        i == s.len() ==> colon_pos(s) is None,
    decreases i,
{
    if i > 0 {
        lemma_colon_pos(s.drop_first(), i - 1);
    } else if s.len() > 0 && s[0] != ':' {
        if i == s.len() {
        }
    }
}

/// Splits a label at its first `:` into kind and value.
fn split_label(s: &[char]) -> (r: (Vec<char>, Vec<char>))
    ensures
        r.0@ == label_kind(s@),
        r.1@ == label_value(s@),
{
    let mut i: usize = 0;
    while i < s.len() && s[i] != ':'
        invariant
            i <= s.len(),
            forall|j: int| 0 <= j < i ==> s@[j] != ':',
        decreases s.len() - i,
    {
        i += 1;
    }
    proof {
        lemma_colon_pos(s@, i as int);
    }
    if i < s.len() {
        let kind = crate::text::take_chars(s, i);
        let mut value: Vec<char> = Vec::new();
        let mut j: usize = i + 1;
        while j < s.len()
            invariant
                i < j <= s.len(),
                value@ == s@.subrange(i + 1, j as int),
            decreases s.len() - j,
        {
            value.push(s[j]);
            j += 1;
        }
        assert(value@ =~= s@.skip(i + 1));
        (kind, value)
    } else {
        (chars_of("entity"), crate::text::copy_chars(s))
    }
}

impl EntityGraph {
    /// `r` lists the nodes in number order, each split into kind and value
    /// at the first `:` of its label and given its component number.
    pub open spec fn reports_nodes(self, r: Seq<GraphNode>) -> bool {
        &&& r.len() == self.label_seq().len()
        &&& forall|i: int|
            0 <= i < r.len() ==> {
                &&& (#[trigger] r[i]).id@ == self.label_seq()[i]
                &&& r[i].kind@ == label_kind(self.label_seq()[i])
                &&& r[i].label@ == label_value(self.label_seq()[i])
                &&& r[i].component == self.component_seq()[i]
                &&& r[i].component == component_roots(self.model())[i]
            }
    }

    /// The nodes in number order, each split into kind and value at the
    /// first `:` of its label and given its component number.
    pub fn nodes(&self) -> (r: Vec<GraphNode>)
        requires
            self.wf(),
        ensures
            self.reports_nodes(r@),
    {
        let mut r: Vec<GraphNode> = Vec::new();
        let mut id: usize = 0;
        while id < self.labels.len()
            invariant
                self.wf(),
                id <= self.labels.len(),
                r.len() == id,
                forall|i: int|
                    0 <= i < id ==> {
                        &&& (#[trigger] r@[i]).id@ == self.label_seq()[i]
                        &&& r@[i].kind@ == label_kind(self.label_seq()[i])
                        &&& r@[i].label@ == label_value(self.label_seq()[i])
                        &&& r@[i].component == self.component_seq()[i]
                    },
            decreases self.labels.len() - id,
        {
            let label = chars_of(self.labels[id].as_str());
            let (kind, value) = split_label(label.as_slice());
            r.push(
                GraphNode {
                    id: self.labels[id].clone(),
                    kind: string_of(kind.as_slice()),
                    label: string_of(value.as_slice()),
                    component: self.components[id],
                },
            );
            id += 1;
        }
        r
    }
}

/// Strict order on node pairs: by first node, then second.
pub open spec fn pair_lt(a: (int, int), b: (int, int)) -> bool {
    a.0 < b.0 || (a.0 == b.0 && a.1 < b.1)
}

/// The pair occurs in the list.
pub open spec fn pair_listed(idx: Seq<(int, int)>, i: int, j: int) -> bool {
    exists|k: int| 0 <= k < idx.len() && #[trigger] idx[k] == (i, j)
}

proof fn lemma_pair_listed_push(idx: Seq<(int, int)>, x: (int, int), i: int, j: int)
    requires
        pair_listed(idx, i, j) || x == (i, j),
    ensures
        pair_listed(idx.push(x), i, j),
{
    if pair_listed(idx, i, j) {
        let k = choose|k: int| 0 <= k < idx.len() && #[trigger] idx[k] == (i, j);
        assert(idx.push(x)[k] == (i, j));
    } else {
        assert(idx.push(x)[idx.len() as int] == (i, j));
    }
}

/// Some listed edge joins the labels `s` and `t`, in either direction.
pub open spec fn edge_joins(es: Seq<GraphEdge>, s: Seq<char>, t: Seq<char>) -> bool {
    exists|k: int| 0 <= k < es.len() && ((es[k].source@ == s && es[k].target@ == t) || (es[k].source@ == t && es[k].target@ == s))
}

/// Step `k` of a chain of labels stays on one label or follows a listed
/// edge.
pub open spec fn chain_step(es: Seq<GraphEdge>, p: Seq<Seq<char>>, k: int) -> bool {
    p[k] == p[k + 1] || edge_joins(es, p[k], p[k + 1])
}

/// A chain of labels along listed edges.
pub open spec fn edge_chain(es: Seq<GraphEdge>, p: Seq<Seq<char>>) -> bool {
    p.len() >= 1 && forall|k: int| 0 <= k < p.len() - 1 ==> #[trigger] chain_step(es, p, k)
}

impl EntityGraph {
    /// `e` reports the edge between nodes `i` and `j` with its data.
    pub open spec fn reports_edge(self, e: GraphEdge, i: int, j: int) -> bool {
        let l = self.label_seq();
        let m = self.model();
        &&& e.source@ == l[i]
        &&& e.target@ == l[j]
        &&& m.edges.contains_key((l[i], l[j]))
        &&& m.edges[(l[i], l[j])] == (e.observations as int, e.risk as int)
    }

    /// `r` lists each edge once, from its lower-numbered end, ordered by
    /// the pair of node numbers.
    pub open spec fn lists_edges(self, r: Seq<GraphEdge>, idx: Seq<(int, int)>) -> bool {
        let n = self.label_seq().len();
        &&& idx.len() == r.len()
        &&& forall|k: int|
            0 <= k < r.len() ==> 0 <= (#[trigger] idx[k]).0 < idx[k].1 < n && self.reports_edge(
                r[k],
                idx[k].0,
                idx[k].1,
            )
        &&& forall|a: int, b: int| 0 <= a < b < idx.len() ==> pair_lt(#[trigger] idx[a], #[trigger] idx[b])
        &&& forall|i: int, j: int|
            0 <= i < j < n && #[trigger] self.model().linked(i, j) ==> pair_listed(idx, i, j)
    }

    /// Component numbers follow the listed edges: two nodes share a
    /// component number exactly when a chain of labels leads from one to
    /// the other, each label next to the same label or joined to it by a
    /// listed edge (in either direction).
    pub proof fn lemma_components_follow_edges(self, ns: Seq<GraphNode>, es: Seq<GraphEdge>, idx: Seq<(int, int)>, i: int, j: int)
        requires
            self.wf(),
            self.reports_nodes(ns),
            self.lists_edges(es, idx),
            0 <= i < ns.len(),
            0 <= j < ns.len(),
        ensures
            ns[i].component == ns[j].component <==> exists|p: Seq<Seq<char>>|
                #[trigger] edge_chain(es, p) && p[0] == ns[i].id@ && p.last() == ns[j].id@,
    {
        let l = self.label_seq();
        let m = self.model@;
        assert(ns[i].id@ == l[i] && ns[j].id@ == l[j]);
        self.lemma_linked_row(0, 0);
        if ns[i].component == ns[j].component {
            assert(m.connected(i, j));
            let q = choose|q: Seq<int>| #[trigger] m.is_walk(q) && q[0] == i && q.last() == j;
            let p = q.map_values(|x: int| l[x]);
            assert forall|k: int| 0 <= k < p.len() - 1 implies #[trigger] chain_step(es, p, k) by {
                assert(m.walk_step(q, k));
                let a = q[k];
                let b = q[k + 1];
                if a < b {
                    assert(self.model().linked(a, b));
                    let t = choose|t: int| 0 <= t < idx.len() && #[trigger] idx[t] == (a, b);
                    assert(self.reports_edge(es[t], a, b));
                    assert(edge_joins(es, p[k], p[k + 1]));
                } else if b < a {
                    assert(m.edges.contains_key((l[b], l[a])));
                    assert(self.model().linked(b, a));
                    let t = choose|t: int| 0 <= t < idx.len() && #[trigger] idx[t] == (b, a);
                    assert(self.reports_edge(es[t], b, a));
                    assert(edge_joins(es, p[k], p[k + 1]));
                }
            }
            assert(edge_chain(es, p));
        }
        if exists|p: Seq<Seq<char>>| #[trigger] edge_chain(es, p) && p[0] == ns[i].id@ && p.last() == ns[j].id@ {
            let p = choose|p: Seq<Seq<char>>| #[trigger] edge_chain(es, p) && p[0] == ns[i].id@ && p.last() == ns[j].id@;
            self.lemma_chain_connects(es, idx, p, i, j);
        }
    }

    proof fn lemma_chain_connects(self, es: Seq<GraphEdge>, idx: Seq<(int, int)>, p: Seq<Seq<char>>, i: int, j: int)
        requires
            self.wf(),
            self.lists_edges(es, idx),
            0 <= i < self.label_seq().len(),
            0 <= j < self.label_seq().len(),
            edge_chain(es, p),
            p[0] == self.label_seq()[i],
            p.last() == self.label_seq()[j],
        ensures
            self.model@.connected(i, j),
        decreases p.len(),
    {
        let l = self.label_seq();
        let m = self.model@;
        self.lemma_linked_row(0, 0);
        if p.len() == 1 {
            assert(i == j);
            let w = seq![i];
            assert(m.is_walk(w));
        } else {
            let p2 = p.drop_last();
            let k = p.len() - 2;
            assert(edge_chain(es, p2)) by {
                assert forall|t: int| 0 <= t < p2.len() - 1 implies #[trigger] chain_step(es, p2, t) by {
                    assert(chain_step(es, p, t));
                }
            }
            assert(chain_step(es, p, k));
            if p[k] == p[k + 1] {
                self.lemma_chain_connects(es, idx, p2, i, j);
            } else {
                let t = choose|t: int|
                    0 <= t < es.len() && ((es[t].source@ == p[k] && es[t].target@ == p[k + 1]) || (es[t].source@ == p[k + 1]
                        && es[t].target@ == p[k]));
                let (a, b) = idx[t];
                assert(self.reports_edge(es[t], a, b));
                let c = if l[a] == p[k] { a } else { b };
                let d = if l[a] == p[k] { b } else { a };
                assert(l[d] == l[j]);
                assert(d == j);
                self.lemma_chain_connects(es, idx, p2, i, c);
                assert(m.linked(c, d));
                let w1 = choose|q: Seq<int>| #[trigger] m.is_walk(q) && q[0] == i && q.last() == c;
                let w2 = seq![c, d];
                assert(m.walk_step(w2, 0));
                assert(m.is_walk(w2));
                m.lemma_walk_concat(w1, w2);
                assert(m.is_walk(w1 + w2.drop_first()));
            }
        }
    }

    /// One row's edges towards higher-numbered nodes, appended.
    fn row_edges(&self, from: usize, r: &mut Vec<GraphEdge>, idx_in: Ghost<Seq<(int, int)>>) -> (idx_out: Ghost<Seq<(int, int)>>)
        requires
            self.wf(),
            from < self.label_seq().len(),
            idx_in@.len() == old(r).len(),
            forall|q: int|
                0 <= q < old(r).len() ==> 0 <= (#[trigger] idx_in@[q]).0 < idx_in@[q].1 < self.label_seq().len()
                    && idx_in@[q].0 < from && self.reports_edge(old(r)@[q], idx_in@[q].0, idx_in@[q].1),
            forall|a: int, b: int| 0 <= a < b < idx_in@.len() ==> pair_lt(#[trigger] idx_in@[a], #[trigger] idx_in@[b]),
        ensures
            idx_out@.len() == final(r).len(),
            forall|q: int|
                0 <= q < final(r).len() ==> 0 <= (#[trigger] idx_out@[q]).0 < idx_out@[q].1 < self.label_seq().len()
                    && idx_out@[q].0 <= from && self.reports_edge(final(r)@[q], idx_out@[q].0, idx_out@[q].1),
            forall|a: int, b: int| 0 <= a < b < idx_out@.len() ==> pair_lt(#[trigger] idx_out@[a], #[trigger] idx_out@[b]),
            forall|i: int, j: int| pair_listed(idx_in@, i, j) ==> pair_listed(idx_out@, i, j),
            forall|j: int|
                from < j < self.label_seq().len() && #[trigger] self.model().linked(from as int, j) ==> pair_listed(
                    idx_out@,
                    from as int,
                    j,
                ),
    {
        let n = self.labels.len();
        let ghost mut idx = idx_in@;
        let ghost base = idx.len();
        let ghost idx0 = idx;
        let ghost row = self.adjacency@[from as int]@;
        let mut k: usize = 0;
        while k < self.adjacency[from].len()
            invariant
                self.wf(),
                n == self.labels.len(),
                from < n,
                row == self.adjacency@[from as int]@,
                base == idx0.len(),
                base <= idx.len(),
                idx.len() == r.len(),
                k <= row.len(),
                forall|q: int|
                    0 <= q < r.len() ==> 0 <= (#[trigger] idx[q]).0 < idx[q].1 < n && idx[q].0 <= from
                        && self.reports_edge(r@[q], idx[q].0, idx[q].1),
                forall|q: int| 0 <= q < base ==> #[trigger] idx[q] == idx0[q],
                forall|q: int| 0 <= q < base ==> (#[trigger] idx0[q]).0 < from,
                forall|q: int| base <= q < idx.len() ==> (#[trigger] idx[q]).0 == from && idx[q].1 > from,
                forall|q: int|
                    base <= q < idx.len() ==> exists|t: int| 0 <= t < k && (#[trigger] idx[q]).1 == row[t].0,
                forall|a: int, b: int| 0 <= a < b < idx.len() ==> pair_lt(#[trigger] idx[a], #[trigger] idx[b]),
                forall|t: int| 0 <= t < k && (#[trigger] row[t]).0 > from ==> pair_listed(idx, from as int, row[t].0 as int),
            decreases row.len() - k,
        {
            let (to, data) = self.adjacency[from][k];
            assert(row[k as int] == (to, data));
            assert(to < n);
            if from < to {
                proof {
                    assert(row_has(row, to, data));
                    assert forall|q: int| base <= q < idx.len() implies (#[trigger] idx[q]).1 < to by {
                        let t = choose|t: int| 0 <= t < k && (#[trigger] idx[q]).1 == row[t].0;
                        assert(row[t].0 < row[k as int].0);
                    }
                }
                r.push(
                    GraphEdge {
                        source: self.labels[from].clone(),
                        target: self.labels[to].clone(),
                        observations: data.observations,
                        risk: data.risk,
                    },
                );
                let ghost before = idx;
                proof {
                    idx = idx.push((from as int, to as int));
                    assert forall|t: int| 0 <= t < k + 1 && (#[trigger] row[t]).0 > from implies pair_listed(
                        idx,
                        from as int,
                        row[t].0 as int,
                    ) by {
                        if t < k {
                            lemma_pair_listed_push(before, (from as int, to as int), from as int, row[t].0 as int);
                        } else {
                            lemma_pair_listed_push(before, (from as int, to as int), from as int, row[t].0 as int);
                        }
                    }
                    assert forall|q: int| base <= q < idx.len() implies exists|t: int|
                        0 <= t < k + 1 && (#[trigger] idx[q]).1 == row[t].0 by {
                        if q < idx.len() - 1 {
                            let t = choose|t: int| 0 <= t < k && (#[trigger] before[q]).1 == row[t].0;
                            assert(idx[q] == before[q]);
                        } else {
                            assert(idx[q].1 == row[k as int].0);
                        }
                    }
                }
            }
            k += 1;
        }
        proof {
            assert forall|i: int, j: int| pair_listed(idx0, i, j) implies pair_listed(idx, i, j) by {
                let q = choose|q: int| 0 <= q < idx0.len() && #[trigger] idx0[q] == (i, j);
                assert(idx[q] == (i, j));
            }
            assert forall|j: int|
                from < j < n && #[trigger] self.model().linked(from as int, j) implies pair_listed(idx, from as int, j) by {
                self.lemma_linked_row(from as int, j as usize);
                let t = choose|t: int| 0 <= t < row.len() && (#[trigger] row[t]).0 == j as usize;
            }
            assert forall|a: int, b: int| 0 <= a < b < idx.len() implies pair_lt(#[trigger] idx[a], #[trigger] idx[b]) by {}
        }
        Ghost(idx)
    }

    /// Every edge once, from its lower-numbered end, in order of node numbers.
    pub fn edges(&self) -> (r: Vec<GraphEdge>)
        requires
            self.wf(),
        ensures
            exists|idx: Seq<(int, int)>| self.lists_edges(r@, idx),
    {
        let n = self.labels.len();
        let mut r: Vec<GraphEdge> = Vec::new();
        let ghost mut idx: Seq<(int, int)> = Seq::empty();
        let mut from: usize = 0;
        while from < n
            invariant
                self.wf(),
                n == self.labels.len(),
                n == self.label_seq().len(),
                from <= n,
                idx.len() == r.len(),
                forall|k: int|
                    0 <= k < r.len() ==> 0 <= (#[trigger] idx[k]).0 < idx[k].1 < n && idx[k].0 < from
                        && self.reports_edge(r@[k], idx[k].0, idx[k].1),
                forall|a: int, b: int| 0 <= a < b < idx.len() ==> pair_lt(#[trigger] idx[a], #[trigger] idx[b]),
                forall|i: int, j: int|
                    0 <= i < j < n && i < from && #[trigger] self.model().linked(i, j) ==> pair_listed(idx, i, j),
            decreases n - from,
        {
            let ghost before = idx;
            let out = self.row_edges(from, &mut r, Ghost(idx));
            proof {
                idx = out@;
            }
            proof {
                assert forall|i: int, j: int|
                    0 <= i < j < n && i < from + 1 && #[trigger] self.model().linked(i, j) implies pair_listed(idx, i, j) by {
                    if i < from {
                        assert(pair_listed(before, i, j));
                    }
                }
            }
            from += 1;
        }
        assert(self.lists_edges(r@, idx));
        r
    }
}

/// Following at most `steps` parent links from `v` reaches `s`.
pub open spec fn chain_to(prev: Seq<Option<usize>>, v: int, s: int, steps: nat) -> bool
    decreases steps,
{
    v == s || (steps > 0 && 0 <= v < prev.len() && prev[v] is Some && chain_to(
        prev,
        prev[v]->Some_0 as int,
        s,
        (steps - 1) as nat,
    ))
}

proof fn lemma_chain_more(prev: Seq<Option<usize>>, v: int, s: int, a: nat, b: nat)
    requires
        chain_to(prev, v, s, a),
        a <= b,
    ensures
        chain_to(prev, v, s, b),
    decreases a,
{
    if v != s {
        lemma_chain_more(prev, prev[v]->Some_0 as int, s, (a - 1) as nat, (b - 1) as nat);
    }
}

proof fn lemma_chain_frame(prev: Seq<Option<usize>>, prev2: Seq<Option<usize>>, v: int, s: int, k: nat, x: int)
    requires
        chain_to(prev, v, s, k),
        prev2 == prev.update(x, prev2[x]),
        0 <= x < prev.len(),
        prev[x] is None,
        x != s,
    ensures
        chain_to(prev2, v, s, k),
    decreases k,
{
    if v != s {
        assert(v != x);
        lemma_chain_frame(prev, prev2, prev[v]->Some_0 as int, s, (k - 1) as nat, x);
    }
}

proof fn lemma_count_none(f: Seq<bool>)
    requires
        forall|i: int| 0 <= i < f.len() ==> !f[i],
    ensures
        count_true(f) == 0,
    decreases f.len(),
{
    if f.len() > 0 {
        lemma_count_none(f.drop_last());
    }
}

/// A set of nodes closed under edges holds every node a walk reaches from it.
proof fn lemma_walk_closed(m: GraphModel, p: Seq<int>, seen: Seq<bool>)
    requires
        m.is_walk(p),
        seen.len() == m.labels.len(),
        seen[p[0]],
        forall|v: int, w: int| 0 <= v < seen.len() && #[trigger] seen[v] && #[trigger] m.linked(v, w) ==> seen[w],
    ensures
        seen[p.last()],
    decreases p.len(),
{
    if p.len() > 1 {
        let q = p.drop_last();
        assert(m.is_walk(q)) by {
            assert forall|k: int| 0 <= k < q.len() - 1 implies #[trigger] m.walk_step(q, k) by {
                assert(m.walk_step(p, k));
            }
            assert forall|k: int| 0 <= k < q.len() implies 0 <= #[trigger] q[k] < m.labels.len() by {
                assert(q[k] == p[k]);
            }
        }
        lemma_walk_closed(m, q, seen);
        assert(m.walk_step(p, p.len() - 2));
    }
}

/// The nodes from `start` to `goal` along parent links, or nothing when
/// the links from `goal` end before `start`.
fn reconstruct(previous: &Vec<Option<usize>>, start: usize, goal: usize, rank: Ghost<Seq<nat>>) -> (r: Vec<usize>)
    requires
        start < previous.len(),
        goal < previous.len(),
        rank@.len() == previous.len(),
        forall|v: int|
            0 <= v < previous.len() && (#[trigger] previous@[v]) is Some ==> (previous@[v]->Some_0 as int)
                < previous.len() && rank@[previous@[v]->Some_0 as int] < rank@[v],
    ensures
        r.len() > 0 ==> {
            &&& r@[0] == start
            &&& r@.last() == goal
            &&& forall|k: int| 0 <= k < r.len() ==> (#[trigger] r@[k]) < previous.len()
            &&& forall|k: int| 0 <= k < r.len() - 1 ==> #[trigger] previous@[r@[k + 1] as int] == Some(r@[k])
        },
        forall|k: nat| chain_to(previous@, goal as int, start as int, k) ==> r.len() > 0,
{
    if start == goal {
        let mut r: Vec<usize> = Vec::new();
        r.push(start);
        return r;
    }
    match previous[goal] {
        None => {
            assert forall|k: nat| !chain_to(previous@, goal as int, start as int, k) by {}
            return Vec::new();
        },
        Some(_) => {},
    }
    let mut path: Vec<usize> = Vec::new();
    path.push(goal);
    let mut current = goal;
    while current != start
        invariant
            current < previous.len(),
            start < previous.len(),
            path.len() >= 1,
            path@[0] == goal,
            path@.last() == current,
            rank@.len() == previous.len(),
            forall|v: int|
                0 <= v < previous.len() && (#[trigger] previous@[v]) is Some ==> (previous@[v]->Some_0 as int)
                    < previous.len() && rank@[previous@[v]->Some_0 as int] < rank@[v],
            forall|k: int| 0 <= k < path.len() ==> (#[trigger] path@[k]) < previous.len(),
            forall|k: int| 0 <= k < path.len() - 1 ==> #[trigger] previous@[path@[k] as int] == Some(path@[k + 1]),
            forall|k: nat| chain_to(previous@, goal as int, start as int, k) ==> exists|j: nat|
                chain_to(previous@, current as int, start as int, j),
        decreases rank@[current as int],
    {
        match previous[current] {
            None => {
                proof {
                    assert forall|k: nat| !chain_to(previous@, goal as int, start as int, k) by {
                        if chain_to(previous@, goal as int, start as int, k) {
                            let j = choose|j: nat| chain_to(previous@, current as int, start as int, j);
                        }
                    }
                }
                return Vec::new();
            },
            Some(parent) => {
                assert(previous@[current as int] is Some);
                proof {
                    assert forall|k: nat| chain_to(previous@, goal as int, start as int, k) implies exists|j: nat|
                        chain_to(previous@, parent as int, start as int, j) by {
                        let j = choose|j: nat| chain_to(previous@, current as int, start as int, j);
                        assert(chain_to(previous@, parent as int, start as int, (j - 1) as nat));
                    }
                }
                path.push(parent);
                current = parent;
            },
        }
    }
    let ghost fwd = path@;
    let mut back: Vec<usize> = Vec::new();
    let mut i = path.len();
    while i > 0
        invariant
            i <= path.len(),
            back@ == fwd.subrange(i as int, fwd.len() as int).reverse(),
            path@ == fwd,
        decreases i,
    {
        i -= 1;
        back.push(path[i]);
        assert(fwd.subrange(i as int, fwd.len() as int).reverse() =~= fwd.subrange(i + 1, fwd.len() as int).reverse().push(fwd[i as int]));
    }
    let path = back;
    proof {
        assert(path@ =~= fwd.reverse());
        assert forall|k: int| 0 <= k < path.len() - 1 implies #[trigger] previous@[path@[k + 1] as int] == Some(path@[k]) by {
            let j = fwd.len() - 2 - k;
            assert(previous@[fwd[j] as int] == Some(fwd[j + 1]));
        }
        assert forall|k: int| 0 <= k < path.len() implies (#[trigger] path@[k]) < previous.len() by {
            assert(path@[k] == fwd[fwd.len() - 1 - k]);
        }
    }
    path
}

/// The number of `true` entries of a flag vector.
pub open spec fn count_true(f: Seq<bool>) -> nat
    decreases f.len(),
{
    if f.len() == 0 {
        0
    } else {
        count_true(f.drop_last()) + if f.last() { 1nat } else { 0nat }
    }
}

proof fn lemma_count_bound(f: Seq<bool>)
    ensures
        count_true(f) <= f.len(),
    decreases f.len(),
{
    if f.len() > 0 {
        lemma_count_bound(f.drop_last());
    }
}

proof fn lemma_count_set(f: Seq<bool>, i: int)
    requires
        0 <= i < f.len(),
        !f[i],
    ensures
        count_true(f.update(i, true)) == count_true(f) + 1,
    decreases f.len(),
{
    let g = f.update(i, true);
    if i < f.len() - 1 {
        assert(g.drop_last() =~= f.drop_last().update(i, true));
        lemma_count_set(f.drop_last(), i);
    } else {
        assert(g.drop_last() =~= f.drop_last());
    }
}

/// The bookkeeping of a breadth-first search from `start`: queued nodes
/// are seen and distinct, every seen node but `start` links back along an
/// edge to a seen node of lower rank, and the links lead back to `start`.
pub open spec fn bfs_ok(
    m: GraphModel,
    start: int,
    queue: Seq<usize>,
    prev: Seq<Option<usize>>,
    seen: Seq<bool>,
    rank: Seq<nat>,
    next_rank: nat,
) -> bool {
    let n = m.labels.len();
    &&& prev.len() == n
    &&& seen.len() == n
    &&& rank.len() == n
    &&& 0 <= start < n
    &&& seen[start]
    &&& prev[start] is None
    &&& next_rank >= 1
    &&& forall|q: int| 0 <= q < queue.len() ==> (#[trigger] queue[q]) < n && seen[queue[q] as int]
    &&& forall|a: int, b: int| 0 <= a < b < queue.len() ==> queue[a] != queue[b]
    &&& forall|v: int|
        0 <= v < n && (#[trigger] prev[v]) is Some ==> {
            &&& (prev[v]->Some_0 as int) < n
            &&& rank[prev[v]->Some_0 as int] < rank[v]
            &&& seen[prev[v]->Some_0 as int]
            &&& m.linked(prev[v]->Some_0 as int, v)
        }
    &&& forall|v: int| 0 <= v < n && #[trigger] seen[v] && v != start ==> prev[v] is Some
    &&& forall|v: int| 0 <= v < n && !(#[trigger] seen[v]) ==> prev[v] is None
    &&& forall|v: int| 0 <= v < n && #[trigger] seen[v] ==> chain_to(prev, v, start, rank[v]) && rank[v] < next_rank
}

/// Every seen node other than `goal` and `except` that has left the queue
/// has all its neighbours seen.
pub open spec fn closed_except(m: GraphModel, goal: int, queue: Seq<usize>, seen: Seq<bool>, except: int) -> bool {
    forall|v: int, w: int|
        0 <= v < seen.len() && #[trigger] seen[v] && v != except && v != goal && !queue.contains(v as usize)
            && #[trigger] m.linked(v, w) ==> seen[w]
}

/// Taking the front node off the queue keeps the other nodes closed.
proof fn lemma_pop_keeps_closed(m: GraphModel, goal: int, q: Seq<usize>, seen: Seq<bool>)
    requires
        q.len() > 0,
        seen.len() <= usize::MAX,
        closed_except(m, goal, q, seen, -1),
        forall|a: int, b: int| 0 <= a < b < q.len() ==> q[a] != q[b],
    ensures
        closed_except(m, goal, q.subrange(1, q.len() as int), seen, q[0] as int),
        !q.subrange(1, q.len() as int).contains(q[0]),
{
    let r = q.subrange(1, q.len() as int);
    assert forall|v: int, w: int|
        0 <= v < seen.len() && #[trigger] seen[v] && v != q[0] as int && v != goal && !r.contains(v as usize)
            && #[trigger] m.linked(v, w) implies seen[w] by {
        if q.contains(v as usize) {
            let j = choose|j: int| 0 <= j < q.len() && q[j] == v as usize;
            assert(j != 0);
            assert(r[j - 1] == v as usize);
        }
    }
    if r.contains(q[0]) {
        let j = choose|j: int| 0 <= j < r.len() && r[j] == q[0];
        assert(q[j + 1] == q[0]);
    }
}

/// Hop counts of the search tree: the start has none, a discovered node
/// one more than its parent, and no walk reaches a seen node in fewer hops.
pub open spec fn hop_tree(m: GraphModel, start: int, prev: Seq<Option<usize>>, seen: Seq<bool>, dist: Seq<nat>) -> bool {
    let n = m.labels.len();
    &&& dist.len() == n
    &&& dist[start] == 0
    &&& forall|v: int|
        0 <= v < n && v != start && (#[trigger] prev[v]) is Some ==> dist[v] == dist[prev[v]->Some_0 as int] + 1
    &&& forall|p: Seq<int>|
        #[trigger] m.is_walk(p) && p[0] == start && seen[p.last()] ==> p.len() - 1 >= dist[p.last()]
}

/// The queue is ordered by hop count, and its counts are `lo` or `lo + 1`.
pub open spec fn queue_band(queue: Seq<usize>, dist: Seq<nat>, lo: nat) -> bool {
    &&& forall|a: int, b: int| 0 <= a < b < queue.len() ==> dist[#[trigger] queue[a] as int] <= dist[#[trigger] queue[b] as int]
    &&& forall|q: int| 0 <= q < queue.len() ==> lo <= dist[#[trigger] queue[q] as int] <= lo + 1
}

/// A walk without its last node is a walk.
proof fn lemma_walk_prefix(m: GraphModel, p: Seq<int>)
    requires
        m.is_walk(p),
        p.len() >= 2,
    ensures
        m.is_walk(p.drop_last()),
        m.linked(p[p.len() - 2], p.last()),
{
    let q = p.drop_last();
    assert forall|k: int| 0 <= k < q.len() - 1 implies #[trigger] m.walk_step(q, k) by {
        assert(m.walk_step(p, k));
    }
    assert forall|k: int| 0 <= k < q.len() implies 0 <= #[trigger] q[k] < m.labels.len() by {
        assert(q[k] == p[k]);
    }
    assert(m.walk_step(p, p.len() - 2));
}

/// While the node at hop count `d` is expanded, a node not yet seen is
/// more than `d` hops from the start.
proof fn lemma_unseen_far(
    m: GraphModel,
    start: int,
    goal: int,
    queue: Seq<usize>,
    seen: Seq<bool>,
    dist: Seq<nat>,
    node: int,
    d: nat,
    p: Seq<int>,
)
    requires
        seen.len() == m.labels.len(),
        m.labels.len() <= usize::MAX,
        dist.len() == m.labels.len(),
        m.is_walk(p),
        p[0] == start,
        seen[start],
        !seen[p.last()],
        closed_except(m, goal, queue, seen, node),
        0 <= node < seen.len(),
        seen[node],
        dist[node] == d,
        0 <= goal < seen.len(),
        forall|q: int| 0 <= q < queue.len() ==> d <= dist[#[trigger] queue[q] as int],
        seen[goal] ==> queue.contains(goal as usize),
        forall|w: Seq<int>| #[trigger] m.is_walk(w) && w[0] == start && seen[w.last()] ==> w.len() - 1 >= dist[w.last()],
    ensures
        p.len() - 1 >= d + 1,
    decreases p.len(),
{
    assert(p.len() >= 2) by {
        if p.len() < 2 {
            assert(p.last() == p[0]);
        }
    }
    lemma_walk_prefix(m, p);
    let q = p.drop_last();
    let x = q.last();
    assert(x == p[p.len() - 2]);
    assert(0 <= q[q.len() - 1] < m.labels.len());
    assert(0 <= x < m.labels.len());
    if !seen[x] {
        lemma_unseen_far(m, start, goal, queue, seen, dist, node, d, q);
    } else {
        assert(q[0] == start);
        assert(q.len() - 1 >= dist[x]);
        if x != node && x != goal && !queue.contains(x as usize) {
            assert(seen[p.last()]);
        }
        if x == goal {
            assert(queue.contains(goal as usize));
        }
        if x != node {
            assert(queue.contains(x as usize));
            let j = choose|j: int| 0 <= j < queue.len() && queue[j] == x as usize;
            assert(d <= dist[queue[j] as int]);
            assert(queue[j] as int == x);
        }
        assert(dist[x] >= d);
        assert(p.len() - 1 == q.len());
    }
}

/// Discovering `next` from `node`, at hop count `d`, gives it hop count
/// `d + 1` and keeps the hop bookkeeping.
proof fn lemma_discover_hops(
    m: GraphModel,
    start: int,
    goal: int,
    queue: Seq<usize>,
    prev: Seq<Option<usize>>,
    seen: Seq<bool>,
    dist: Seq<nat>,
    node: int,
    d: nat,
    next: int,
)
    requires
        seen.len() == m.labels.len(),
        prev.len() == m.labels.len(),
        m.labels.len() <= usize::MAX,
        0 <= start < seen.len(),
        seen[start],
        forall|v: int|
            0 <= v < seen.len() && (#[trigger] prev[v]) is Some ==> (prev[v]->Some_0 as int) < seen.len() && seen[prev[v]->Some_0 as int],
        forall|q: int| 0 <= q < queue.len() ==> (#[trigger] queue[q]) < seen.len() && seen[queue[q] as int],
        closed_except(m, goal, queue, seen, node),
        hop_tree(m, start, prev, seen, dist),
        0 <= node < seen.len(),
        seen[node],
        dist[node] == d,
        queue_band(queue, dist, d),
        0 <= goal < seen.len(),
        seen[goal] ==> queue.contains(goal as usize),
        0 <= next < seen.len(),
        !seen[next],
    ensures
        hop_tree(m, start, prev.update(next, Some(node as usize)), seen.update(next, true), dist.update(next, d + 1)),
        dist.update(next, d + 1)[node] == d,
        queue_band(queue.push(next as usize), dist.update(next, d + 1), d),
        seen.update(next, true)[goal] ==> queue.push(next as usize).contains(goal as usize),
{
    let n = seen.len();
    let prev2 = prev.update(next, Some(node as usize));
    let seen2 = seen.update(next, true);
    let dist2 = dist.update(next, d + 1);
    let q2 = queue.push(next as usize);
    assert forall|p: Seq<int>| #[trigger] m.is_walk(p) && p[0] == start && p.last() == next implies p.len() - 1 >= d + 1 by {
        lemma_unseen_far(m, start, goal, queue, seen, dist, node, d, p);
    }
    assert forall|v: int| 0 <= v < n && v != start && (#[trigger] prev2[v]) is Some implies dist2[v] == dist2[prev2[v]->Some_0 as int] + 1 by {
        if v != next {
            assert(prev2[v] == prev[v]);
            assert(prev[v] is Some);
            assert(seen[prev[v]->Some_0 as int]);
            assert(dist[v] == dist[prev[v]->Some_0 as int] + 1);
            assert(prev[v]->Some_0 as int != next);
            assert(dist2[v] == dist[v]);
            assert(dist2[prev[v]->Some_0 as int] == dist[prev[v]->Some_0 as int]);
        } else {
            assert(prev2[v] == Some(node as usize));
            assert((node as usize) as int == node);
            assert(node != next);
            assert(dist2[v] == d + 1);
            assert(dist2[node] == d);
        }
    }
    assert forall|p: Seq<int>| #[trigger] m.is_walk(p) && p[0] == start && seen2[p.last()] implies p.len() - 1 >= dist2[p.last()] by {
        if p.last() != next {
            assert(seen[p.last()]);
        }
    }
    assert forall|a: int, b: int| 0 <= a < b < q2.len() implies dist2[#[trigger] q2[a] as int] <= dist2[#[trigger] q2[b] as int] by {
        assert(q2[a] == queue[a]);
        assert(seen[queue[a] as int]);
        if b < queue.len() {
            assert(q2[b] == queue[b]);
            assert(seen[queue[b] as int]);
        }
    }
    assert forall|q: int| 0 <= q < q2.len() implies d <= dist2[#[trigger] q2[q] as int] <= d + 1 by {
        if q < queue.len() {
            assert(q2[q] == queue[q]);
            assert(seen[queue[q] as int]);
        }
    }
    if next != goal && seen2[goal] {
        let j = choose|j: int| 0 <= j < queue.len() && queue[j] == goal as usize;
        assert(q2[j] == goal as usize);
    }
    if next == goal {
        assert(q2[queue.len() as int] == goal as usize);
    }
}

/// A band of hop counts whose front is at least `d` is a band from its front.
proof fn lemma_band_front(q: Seq<usize>, dist: Seq<nat>, d: nat)
    requires
        queue_band(q, dist, d),
    ensures
        q.len() > 0 ==> queue_band(q, dist, dist[q[0] as int]),
{
    if q.len() > 0 {
        assert forall|j: int| 0 <= j < q.len() implies dist[q[0] as int] <= dist[#[trigger] q[j] as int] <= dist[q[0] as int] + 1 by {
            if j > 0 {
                assert(dist[q[0] as int] <= dist[q[j] as int]);
            }
        }
    }
}

/// Taking the front off a queue banded from its front leaves a queue banded
/// from the removed count, and from its own front; the goal stays queued
/// unless it was the front.
proof fn lemma_pop_band(q0: Seq<usize>, dist: Seq<nat>, goal: usize)
    requires
        q0.len() > 0,
        queue_band(q0, dist, dist[q0[0] as int]),
    ensures
        queue_band(q0.subrange(1, q0.len() as int), dist, dist[q0[0] as int]),
        q0.len() > 1 ==> queue_band(q0.subrange(1, q0.len() as int), dist, dist[q0[1] as int]),
        q0.contains(goal) && q0[0] != goal ==> q0.subrange(1, q0.len() as int).contains(goal),
{
    let q = q0.subrange(1, q0.len() as int);
    let d = dist[q0[0] as int];
    assert forall|j: int| 0 <= j < q.len() implies d <= dist[#[trigger] q[j] as int] <= d + 1 by {
        assert(q[j] == q0[j + 1]);
    }
    assert forall|a: int, b: int| 0 <= a < b < q.len() implies dist[#[trigger] q[a] as int] <= dist[#[trigger] q[b] as int] by {
        assert(q[a] == q0[a + 1]);
        assert(q[b] == q0[b + 1]);
    }
    lemma_band_front(q, dist, d);
    if q0.len() > 1 {
        assert(q[0] == q0[1]);
    }
    if q0.contains(goal) && q0[0] != goal {
        let j = choose|j: int| 0 <= j < q0.len() && q0[j] == goal;
        assert(q[j - 1] == goal);
    }
}

/// Along parent links from the start, the `k`-th node is `k` hops away.
proof fn lemma_chain_hops(
    m: GraphModel,
    start: int,
    prev: Seq<Option<usize>>,
    seen: Seq<bool>,
    dist: Seq<nat>,
    ids: Seq<usize>,
    k: int,
)
    requires
        hop_tree(m, start, prev, seen, dist),
        prev.len() == m.labels.len(),
        prev[start] is None,
        ids.len() > 0,
        ids[0] == start,
        0 <= k < ids.len(),
        forall|j: int| 0 <= j < ids.len() ==> (#[trigger] ids[j]) < m.labels.len(),
        forall|j: int| 0 <= j < ids.len() - 1 ==> #[trigger] prev[ids[j + 1] as int] == Some(ids[j]),
    ensures
        dist[ids[k] as int] == k,
    decreases k,
{
    if k > 0 {
        lemma_chain_hops(m, start, prev, seen, dist, ids, k - 1);
        assert(prev[ids[(k - 1) + 1] as int] == Some(ids[k - 1]));
        assert(ids[(k - 1) + 1] == ids[k]);
        assert(ids[k] as int != start);
    }
}

/// Discovering `next` from `node` keeps the search bookkeeping.
proof fn lemma_bfs_discover(
    m: GraphModel,
    start: int,
    queue: Seq<usize>,
    prev: Seq<Option<usize>>,
    seen: Seq<bool>,
    rank: Seq<nat>,
    next_rank: nat,
    node: int,
    next: int,
)
    requires
        bfs_ok(m, start, queue, prev, seen, rank, next_rank),
        m.labels.len() <= usize::MAX,
        0 <= node < m.labels.len(),
        0 <= next < m.labels.len(),
        seen[node],
        !seen[next],
        m.linked(node, next),
    ensures
        bfs_ok(
            m,
            start,
            queue.push(next as usize),
            prev.update(next, Some(node as usize)),
            seen.update(next, true),
            rank.update(next, next_rank),
            next_rank + 1,
        ),
{
    let n = m.labels.len();
    let prev2 = prev.update(next, Some(node as usize));
    let seen2 = seen.update(next, true);
    let rank2 = rank.update(next, next_rank);
    let q2 = queue.push(next as usize);
    assert(next != start);
    assert(prev[next] is None);
    lemma_chain_frame(prev, prev2, node, start, rank[node], next);
    lemma_chain_more(prev2, node, start, rank[node], (next_rank - 1) as nat);
    assert forall|v: int| 0 <= v < n && #[trigger] seen2[v] implies chain_to(prev2, v, start, rank2[v]) && rank2[v] < next_rank + 1 by {
        if v != next {
            lemma_chain_frame(prev, prev2, v, start, rank[v], next);
        } else {
            assert(prev2[next] == Some(node as usize));
        }
    }
    assert forall|v: int|
        0 <= v < n && (#[trigger] prev2[v]) is Some implies {
            &&& (prev2[v]->Some_0 as int) < n
            &&& rank2[prev2[v]->Some_0 as int] < rank2[v]
            &&& seen2[prev2[v]->Some_0 as int]
            &&& m.linked(prev2[v]->Some_0 as int, v)
        } by {
        if v != next {
            assert(prev[v] is Some);
            assert(prev[v]->Some_0 as int != next);
        }
    }
    assert forall|a: int, b: int| 0 <= a < b < q2.len() implies q2[a] != q2[b] by {
        if b == q2.len() - 1 {
            assert(seen[q2[a] as int]);
        }
    }
}

/// Cost of crossing an edge of the given risk: `11 - risk`, at least 1.
pub open spec fn risk_cost(risk: int) -> int {
    if 11 - risk >= 1 {
        11 - risk
    } else {
        1
    }
}

/// Crossing an edge costs less the higher its risk: every edge costs at
/// least 1, an edge of risk 10 or more costs 1, an edge of higher risk never
/// costs more than one of lower risk, and up to risk 10 each point of risk
/// takes one off a cost of 11.
pub proof fn lemma_risk_cost_laws(r1: int, r2: int)
    ensures
        risk_cost(r1) >= 1,
        r1 <= r2 ==> risk_cost(r2) <= risk_cost(r1),
        r1 >= 10 ==> risk_cost(r1) == 1,
        r1 <= 10 ==> risk_cost(r1) + r1 == 11,
{
}

impl GraphModel {
    /// Cost of the edge from `u` to `v`.
    pub open spec fn edge_cost(self, u: int, v: int) -> int {
        risk_cost(self.edges[(self.labels[u], self.labels[v])].1)
    }

    /// Total edge cost along a walk.
    pub open spec fn walk_cost(self, p: Seq<int>) -> int
        decreases p.len(),
    {
        if p.len() <= 1 {
            0
        } else {
            self.walk_cost(p.drop_last()) + self.edge_cost(p[p.len() - 2], p[p.len() - 1])
        }
    }
}

/// `d + c`, stopping at `u32::MAX`.
pub open spec fn sat_sum(d: int, c: int) -> int {
    if d + c <= u32::MAX {
        d + c
    } else {
        u32::MAX as int
    }
}

/// The bookkeeping of Dijkstra's search from `start` towards `goal`:
/// settled nodes have final, optimal distances no larger than any queued
/// one and have relaxed their edges; the queue holds exactly the unsettled
/// nodes at finite distance; parent links follow edges and add up costs.
pub open spec fn dijkstra_ok(
    m: GraphModel,
    start: int,
    goal: int,
    pending: int,
    dist: Seq<u32>,
    prev: Seq<Option<usize>>,
    settled: Seq<bool>,
    queued: Map<usize, u32>,
) -> bool {
    let n = m.labels.len();
    &&& dist.len() == n
    &&& prev.len() == n
    &&& settled.len() == n
    &&& 0 <= start < n
    &&& dist[start] == 0
    &&& prev[start] is None
    &&& forall|v: usize| #[trigger] queued.contains_key(v) <==> (v < n && !settled[v as int] && dist[v as int] < u32::MAX)
    &&& forall|v: usize| #[trigger] queued.contains_key(v) ==> queued[v] == dist[v as int]
    &&& forall|u: int| 0 <= u < n && #[trigger] settled[u] ==> dist[u] < u32::MAX
    &&& forall|u: int, v: int|
        0 <= u < n && #[trigger] settled[u] && u != goal && u != pending && #[trigger] m.linked(u, v) ==> dist[v]
            <= sat_sum(dist[u] as int, m.edge_cost(u, v))
    &&& forall|u: int, p: Seq<int>|
        0 <= u < n && #[trigger] settled[u] && #[trigger] m.is_walk(p) && p[0] == start && p.last() == u ==> dist[u]
            <= m.walk_cost(p)
    &&& forall|u: int, v: int| 0 <= u < n && 0 <= v < n && #[trigger] settled[u] && !#[trigger] settled[v] ==> dist[u] <= dist[v]
    &&& forall|v: int|
        0 <= v < n && (#[trigger] prev[v]) is Some ==> {
            &&& (prev[v]->Some_0 as int) < n
            &&& settled[prev[v]->Some_0 as int]
            &&& m.linked(prev[v]->Some_0 as int, v)
            &&& dist[v] == dist[prev[v]->Some_0 as int] + m.edge_cost(prev[v]->Some_0 as int, v)
            &&& dist[v] < u32::MAX
        }
    &&& forall|v: int| 0 <= v < n && v != start && #[trigger] dist[v] < u32::MAX ==> prev[v] is Some
    &&& pending >= 0 ==> 0 <= pending < n && settled[pending] && forall|u: int|
        0 <= u < n && #[trigger] settled[u] ==> dist[u] <= dist[pending]
}

/// A walk from `start` to an unsettled node costs at least the smallest
/// queued distance, or at least `u32::MAX` when nothing is queued.
proof fn lemma_walk_bound(
    m: GraphModel,
    start: int,
    goal: int,
    dist: Seq<u32>,
    prev: Seq<Option<usize>>,
    settled: Seq<bool>,
    queued: Map<usize, u32>,
    bound: int,
    p: Seq<int>,
)
    requires
        dijkstra_ok(m, start, goal, -1, dist, prev, settled, queued),
        !settled[goal],
        bound <= u32::MAX,
        m.labels.len() <= usize::MAX,
        forall|v: usize| #[trigger] queued.contains_key(v) ==> bound <= queued[v],
        m.is_walk(p),
        p[0] == start,
        !settled[p.last()],
    ensures
        bound <= m.walk_cost(p),
    decreases p.len(),
{
    if p.len() == 1 {
        assert(queued.contains_key(start as usize));
    } else {
        let q = p.drop_last();
        assert(m.is_walk(q)) by {
            assert forall|k: int| 0 <= k < q.len() - 1 implies #[trigger] m.walk_step(q, k) by {
                assert(m.walk_step(p, k));
            }
            assert forall|k: int| 0 <= k < q.len() implies 0 <= #[trigger] q[k] < m.labels.len() by {
                assert(q[k] == p[k]);
            }
        }
        let a = q.last();
        let b = p.last();
        assert(m.walk_step(p, p.len() - 2));
        assert(m.linked(a, b));
        if settled[a] {
            assert(dist[a] as int <= m.walk_cost(q));
            assert(dist[b] <= sat_sum(dist[a] as int, m.edge_cost(a, b)));
            if dist[b] < u32::MAX {
                assert(queued.contains_key(b as usize));
            }
        } else {
            lemma_walk_bound(m, start, goal, dist, prev, settled, queued, bound, q);
        }
    }
}

/// Settling the queued node of smallest distance keeps the bookkeeping,
/// with that node's edges still to relax.
proof fn lemma_settle(
    m: GraphModel,
    start: int,
    goal: int,
    dist: Seq<u32>,
    prev: Seq<Option<usize>>,
    settled: Seq<bool>,
    queued: Map<usize, u32>,
    node: usize,
)
    requires
        dijkstra_ok(m, start, goal, -1, dist, prev, settled, queued),
        !settled[goal],
        m.labels.len() <= usize::MAX,
        queued.contains_key(node),
        forall|v: usize| #[trigger] queued.contains_key(v) ==> queued[node] <= queued[v],
    ensures
        dijkstra_ok(m, start, goal, node as int, dist, prev, settled.update(node as int, true), queued.remove(node)),
{
    let n = m.labels.len();
    let s2 = settled.update(node as int, true);
    let q2 = queued.remove(node);
    assert forall|p: Seq<int>| #[trigger] m.is_walk(p) && p[0] == start && p.last() == node implies dist[node as int]
        <= m.walk_cost(p) by {
        lemma_walk_bound(m, start, goal, dist, prev, settled, queued, queued[node] as int, p);
    }
    assert forall|u: int, p: Seq<int>|
        0 <= u < n && #[trigger] s2[u] && #[trigger] m.is_walk(p) && p[0] == start && p.last() == u implies dist[u]
            <= m.walk_cost(p) by {
        if u != node {
            assert(settled[u]);
        }
    }
    assert forall|u: int, v: int| 0 <= u < n && 0 <= v < n && #[trigger] s2[u] && !#[trigger] s2[v] implies dist[u] <= dist[v] by {
        if u == node {
            if dist[v] < u32::MAX {
                assert(queued.contains_key(v as usize));
            }
        } else {
            assert(settled[u]);
        }
    }
    assert forall|v: int| 0 <= v < n && (#[trigger] prev[v]) is Some implies s2[prev[v]->Some_0 as int] by {}
}

/// Lowering the distance of `next` through the settled `node` keeps the
/// bookkeeping.
proof fn lemma_relax(
    m: GraphModel,
    start: int,
    goal: int,
    dist: Seq<u32>,
    prev: Seq<Option<usize>>,
    settled: Seq<bool>,
    queued: Map<usize, u32>,
    node: usize,
    next: usize,
    candidate: u32,
)
    requires
        dijkstra_ok(m, start, goal, node as int, dist, prev, settled, queued),
        m.labels.len() <= usize::MAX,
        (node as int) < m.labels.len(),
        (next as int) < m.labels.len(),
        settled[node as int],
        m.linked(node as int, next as int),
        candidate == sat_sum(dist[node as int] as int, m.edge_cost(node as int, next as int)),
        candidate < dist[next as int],
    ensures
        !settled[next as int],
        dijkstra_ok(
            m,
            start,
            goal,
            node as int,
            dist.update(next as int, candidate),
            prev.update(next as int, Some(node)),
            settled,
            queued.insert(next, candidate),
        ),
{
    let n = m.labels.len();
    let d2 = dist.update(next as int, candidate);
    let p2 = prev.update(next as int, Some(node));
    let q2 = queued.insert(next, candidate);
    assert(!settled[next as int]) by {
        if settled[next as int] {
            assert(next != node);
            assert(dist[next as int] <= dist[node as int]);
        }
    }
    assert(m.edge_cost(node as int, next as int) >= 1);
    assert(next as int != start) by {
        assert(dist[start] == 0);
    }
    assert forall|u: int, v: int|
        0 <= u < n && #[trigger] settled[u] && u != goal && u != node && #[trigger] m.linked(u, v) implies d2[v]
            <= sat_sum(d2[u] as int, m.edge_cost(u, v)) by {
        assert(u != next);
    }
    assert forall|u: int, v: int| 0 <= u < n && 0 <= v < n && #[trigger] settled[u] && !#[trigger] settled[v] implies d2[u] <= d2[v] by {
        assert(u != next);
        if v == next {
            assert(dist[u] <= dist[node as int]);
        }
    }
    assert forall|v: int|
        0 <= v < n && (#[trigger] p2[v]) is Some implies {
            &&& (p2[v]->Some_0 as int) < n
            &&& settled[p2[v]->Some_0 as int]
            &&& m.linked(p2[v]->Some_0 as int, v)
            &&& d2[v] == d2[p2[v]->Some_0 as int] + m.edge_cost(p2[v]->Some_0 as int, v)
            &&& d2[v] < u32::MAX
        } by {
        if v != next {
            assert(prev[v] is Some);
            assert(prev[v]->Some_0 as int != next);
        }
    }
    assert forall|u: int, p: Seq<int>|
        0 <= u < n && #[trigger] settled[u] && #[trigger] m.is_walk(p) && p[0] == start && p.last() == u implies d2[u]
            <= m.walk_cost(p) by {
        assert(u != next);
    }
}

/// Parent links from a node at finite distance lead back to `start`, and
/// a walk along them costs the distance.
proof fn lemma_dist_chain(
    m: GraphModel,
    start: int,
    goal: int,
    pending: int,
    dist: Seq<u32>,
    prev: Seq<Option<usize>>,
    settled: Seq<bool>,
    queued: Map<usize, u32>,
    v: int,
)
    requires
        dijkstra_ok(m, start, goal, pending, dist, prev, settled, queued),
        0 <= v < m.labels.len(),
        dist[v] < u32::MAX,
        m.labels.len() <= usize::MAX,
    ensures
        chain_to(prev, v, start, dist[v] as nat),
    decreases dist[v],
{
    if v != start {
        assert(prev[v] is Some);
        let u = prev[v]->Some_0 as int;
        assert(m.edge_cost(u, v) >= 1);
        lemma_dist_chain(m, start, goal, pending, dist, prev, settled, queued, u);
        lemma_chain_more(prev, u, start, dist[u] as nat, (dist[v] - 1) as nat);
    }
}

/// A walk along parent links costs the distance of its end.
proof fn lemma_parent_walk_cost(
    m: GraphModel,
    start: int,
    goal: int,
    pending: int,
    dist: Seq<u32>,
    prev: Seq<Option<usize>>,
    settled: Seq<bool>,
    queued: Map<usize, u32>,
    p: Seq<int>,
)
    requires
        dijkstra_ok(m, start, goal, pending, dist, prev, settled, queued),
        p.len() >= 1,
        p[0] == start,
        forall|k: int| 0 <= k < p.len() ==> 0 <= #[trigger] p[k] < m.labels.len(),
        forall|k: int| 0 <= k < p.len() - 1 ==> #[trigger] prev[p[k + 1]] == Some(p[k] as usize),
        m.labels.len() <= usize::MAX,
    ensures
        m.is_walk(p),
        m.walk_cost(p) == dist[p.last()],
    decreases p.len(),
{
    if p.len() > 1 {
        let q = p.drop_last();
        assert forall|k: int| 0 <= k < q.len() - 1 implies #[trigger] prev[q[k + 1]] == Some(q[k] as usize) by {
            assert(prev[p[k + 1]] == Some(p[k] as usize));
        }
        lemma_parent_walk_cost(m, start, goal, pending, dist, prev, settled, queued, q);
        let k = p.len() - 2;
        assert(prev[p[k + 1]] == Some(p[k] as usize));
        assert forall|j: int| 0 <= j < p.len() - 1 implies #[trigger] m.walk_step(p, j) by {
            if j < p.len() - 2 {
                assert(m.walk_step(q, j));
            }
        }
    }
}

impl EntityGraph {
    /// Node labels along a sequence of node numbers.
    pub open spec fn labels_along(self, p: Seq<int>) -> Seq<Seq<char>> {
        p.map_values(|v: int| self.label_seq()[v])
    }

    /// `nodes` names, in order, the nodes of a walk from `a` to `b`.
    pub open spec fn names_walk(self, nodes: Seq<String>, a: int, b: int) -> bool {
        exists|p: Seq<int>|
            #[trigger] self.model().is_walk(p) && p[0] == a && p.last() == b && nodes.map_values(|s: String| s@)
                == self.labels_along(p)
    }

    /// The labels of the nodes listed by number.
    fn labels_of(&self, ids: &Vec<usize>) -> (r: Vec<String>)
        requires
            self.wf(),
            forall|k: int| 0 <= k < ids.len() ==> (#[trigger] ids@[k]) < self.labels.len(),
        ensures
            r@.map_values(|s: String| s@) == self.labels_along(ids@.map_values(|v: usize| v as int)),
    {
        let mut r: Vec<String> = Vec::new();
        let mut k: usize = 0;
        while k < ids.len()
            invariant
                self.wf(),
                k <= ids.len(),
                r.len() == k,
                forall|q: int| 0 <= q < ids.len() ==> (#[trigger] ids@[q]) < self.labels.len(),
                forall|q: int| 0 <= q < k ==> (#[trigger] r@[q])@ == self.label_seq()[ids@[q] as int],
            decreases ids.len() - k,
        {
            r.push(self.labels[ids[k]].clone());
            k += 1;
        }
        assert(r@.map_values(|s: String| s@) =~= self.labels_along(ids@.map_values(|v: usize| v as int)));
        r
    }

    /// One breadth-first step: every unseen neighbour of `node` is marked
    /// seen, linked back to `node` and queued.
    fn bfs_expand(
        &self,
        node: usize,
        start: usize,
        goal: usize,
        queue: &mut VecDeque<usize>,
        previous: &mut Vec<Option<usize>>,
        seen: &mut Vec<bool>,
        rank_in: Ghost<Seq<nat>>,
        next_in: Ghost<nat>,
        dist_in: Ghost<Seq<nat>>,
    ) -> (out: Ghost<(Seq<nat>, nat, Seq<nat>)>)
        requires
            self.wf(),
            node < self.label_seq().len(),
            node != goal,
            goal < self.label_seq().len(),
            old(seen)@[node as int],
            !old(queue)@.contains(node),
            bfs_ok(self.model(), start as int, old(queue)@, old(previous)@, old(seen)@, rank_in@, next_in@),
            closed_except(self.model(), goal as int, old(queue)@, old(seen)@, node as int),
            count_true(old(seen)@) <= self.label_seq().len(),
            hop_tree(self.model(), start as int, old(previous)@, old(seen)@, dist_in@),
            queue_band(old(queue)@, dist_in@, dist_in@[node as int]),
            old(seen)@[goal as int] ==> old(queue)@.contains(goal),
        ensures
            bfs_ok(self.model(), start as int, final(queue)@, final(previous)@, final(seen)@, out@.0, out@.1),
            closed_except(self.model(), goal as int, final(queue)@, final(seen)@, -1),
            count_true(final(seen)@) - count_true(old(seen)@) == final(queue)@.len() - old(queue)@.len(),
            final(queue)@.len() >= old(queue)@.len(),
            count_true(final(seen)@) <= self.label_seq().len(),
            hop_tree(self.model(), start as int, final(previous)@, final(seen)@, out@.2),
            out@.2[node as int] == dist_in@[node as int],
            queue_band(final(queue)@, out@.2, dist_in@[node as int]),
            final(seen)@[goal as int] ==> final(queue)@.contains(goal),
    {
        let ghost m = self.model();
        let ghost n = self.labels.len();
        let ghost mut rank = rank_in@;
        let ghost mut next_rank = next_in@;
        let ghost d0 = dist_in@[node as int];
        let ghost mut dist = dist_in@;
        let ghost q_in = queue@;
        let ghost c_in = count_true(seen@);
        let mut k: usize = 0;
        while k < self.adjacency[node].len()
            invariant
                self.wf(),
                m == self.model(),
                n == self.labels.len(),
                node < n,
                node != goal,
                seen@[node as int],
                !queue@.contains(node),
                bfs_ok(m, start as int, queue@, previous@, seen@, rank, next_rank),
                closed_except(m, goal as int, queue@, seen@, node as int),
                k <= self.adjacency@[node as int]@.len(),
                forall|t: int| 0 <= t < k ==> seen@[(#[trigger] self.adjacency@[node as int]@[t]).0 as int],
                count_true(seen@) - c_in == queue@.len() - q_in.len(),
                queue@.len() >= q_in.len(),
                count_true(seen@) <= n,
                goal < n,
                hop_tree(m, start as int, previous@, seen@, dist),
                dist[node as int] == d0,
                queue_band(queue@, dist, d0),
                seen@[goal as int] ==> queue@.contains(goal),
            decreases self.adjacency@[node as int]@.len() - k,
        {
            let next = self.adjacency[node][k].0;
            assert(next < n);
            if !seen[next] {
                let ghost old_prev = previous@;
                let ghost old_seen = seen@;
                let ghost old_queue = queue@;
                proof {
                    lemma_count_set(seen@, next as int);
                    lemma_count_bound(seen@.update(next as int, true));
                    let row = self.adjacency@[node as int]@;
                    assert(row_key(row, next));
                    self.lemma_linked_row(node as int, next);
                    lemma_discover_hops(m, start as int, goal as int, old_queue, old_prev, old_seen, dist, node as int, d0, next as int);
                }
                seen.set(next, true);
                previous.set(next, Some(node));
                queue.push_back(next);
                proof {
                    dist = dist.update(next as int, d0 + 1);
                    let old_rank = rank;
                    rank = rank.update(next as int, next_rank);
                    next_rank = next_rank + 1;
                    lemma_bfs_discover(m, start as int, old_queue, old_prev, old_seen, old_rank, (next_rank - 1) as nat, node as int, next as int);
                    assert(queue@ == old_queue.push(next));
                    assert(queue@[old_queue.len() as int] == next);
                    assert(queue@.contains(next));
                    assert forall|v: int, w: int|
                        0 <= v < n && #[trigger] seen@[v] && v != node && v != goal && !queue@.contains(v as usize) && #[trigger] m.linked(v, w)
                            implies seen@[w] by {
                        assert(v != next);
                        assert(!old_queue.contains(v as usize)) by {
                            if old_queue.contains(v as usize) {
                                let j = choose|j: int| 0 <= j < old_queue.len() && old_queue[j] == v as usize;
                                assert(queue@[j] == v as usize);
                            }
                        }
                        assert(old_seen[w]);
                    }
                    assert(!queue@.contains(node)) by {
                        if queue@.contains(node) {
                            let j = choose|j: int| 0 <= j < queue@.len() && queue@[j] == node;
                            if j < old_queue.len() {
                                assert(old_queue[j] == node);
                            }
                        }
                    }
                }
            }
            k += 1;
        }
        proof {
            assert forall|w: int| #[trigger] m.linked(node as int, w) implies seen@[w] by {
                self.lemma_linked_row(node as int, w as usize);
                let row = self.adjacency@[node as int]@;
                let t = choose|t: int| 0 <= t < row.len() && (#[trigger] row[t]).0 == w as usize;
            }
        }
        Ghost((rank, next_rank, dist))
    }

    /// Breadth-first search from `start`, stopping at `goal`.
    fn bfs(&self, start: usize, goal: usize) -> (r: PathResult)
        requires
            self.wf(),
            start < self.label_seq().len(),
            goal < self.label_seq().len(),
            self.model().connected(start as int, goal as int),
        ensures
            r.found,
            r.mode == PathMode::Hops,
            self.names_walk(r.nodes@, start as int, goal as int),
            r.cost == (r.nodes.len() - 1) as u32,
            forall|p: Seq<int>|
                #[trigger] self.model().is_walk(p) && p[0] == start as int && p.last() == goal as int ==> r.nodes.len() <= p.len(),
            1 <= r.visited <= self.label_seq().len(),
            r.explanation@ == "BFS minimizes the number of entity-to-entity hops; O(V + E)."@,
    {
        let n = self.labels.len();
        let ghost m = self.model();
        let mut queue: VecDeque<usize> = VecDeque::new();
        queue.push_back(start);
        let mut previous: Vec<Option<usize>> = Vec::new();
        let mut seen: Vec<bool> = Vec::new();
        let mut i: usize = 0;
        while i < n
            invariant
                i <= n,
                previous.len() == i,
                seen.len() == i,
                forall|v: int| 0 <= v < i ==> (#[trigger] previous@[v]) is None,
                forall|v: int| 0 <= v < i ==> !(#[trigger] seen@[v]),
            decreases n - i,
        {
            previous.push(None);
            seen.push(false);
            i += 1;
        }
        proof {
            lemma_count_none(seen@);
            lemma_count_set(seen@, start as int);
        }
        seen.set(start, true);
        let ghost mut rank: Seq<nat> = Seq::new(n as nat, |v: int| 0nat);
        let ghost mut next_rank: nat = 1;
        let ghost mut dist: Seq<nat> = Seq::new(n as nat, |v: int| 0nat);
        proof {
            assert(hop_tree(m, start as int, previous@, seen@, dist));
            assert(queue_band(queue@, dist, dist[queue@[0] as int]));
            assert forall|v: int| 0 <= v < n && #[trigger] seen@[v] implies v == start by {}
            assert(queue@[0] == start);
            assert(bfs_ok(m, start as int, queue@, previous@, seen@, rank, next_rank));
            assert(closed_except(m, goal as int, queue@, seen@, -1)) by {
                assert forall|v: int, w: int|
                    0 <= v < seen.len() && #[trigger] seen@[v] && v != -1 && v != goal && !queue@.contains(v as usize) && #[trigger] m.linked(v, w)
                        implies seen@[w] by {
                    assert(queue@.contains(start));
                }
            }
            lemma_count_bound(seen@);
        }
        let mut visited: usize = 0;
        let mut done = false;
        while !done
            invariant
                n == self.labels.len(),
                self.wf(),
                m == self.model(),
                start < n,
                goal < n,
                m.connected(start as int, goal as int),
                bfs_ok(m, start as int, queue@, previous@, seen@, rank, next_rank),
                closed_except(m, goal as int, queue@, seen@, -1),
                visited + queue@.len() == count_true(seen@),
                count_true(seen@) <= n,
                visited >= 1 || queue@.len() > 0,
                done ==> (seen@[goal as int] && visited >= 1) || (queue@.len() == 0),
                hop_tree(m, start as int, previous@, seen@, dist),
                queue@.len() > 0 ==> queue_band(queue@, dist, dist[queue@[0] as int]),
                !done ==> (seen@[goal as int] ==> queue@.contains(goal)),
            decreases 2 * (n - count_true(seen@)) + queue@.len() + (if done { 0int } else { 1int }),
        {
            let ghost q0_full = queue@;
            let ghost c0 = count_true(seen@);
            match queue.pop_front() {
                None => {
                    done = true;
                    assert(count_true(seen@) == c0);
                },
                Some(node) => {
                    proof {
                        lemma_pop_keeps_closed(m, goal as int, q0_full, seen@);
                        assert(q0_full[0] == node);
                        assert(queue@ == q0_full.subrange(1, q0_full.len() as int));
                        lemma_pop_band(q0_full, dist, goal);
                    }
                    visited += 1;
                    assert(queue@.len() == q0_full.len() - 1);
                    if node == goal {
                        done = true;
                        assert(count_true(seen@) == c0);
                    } else {
                        proof {
                            lemma_count_bound(seen@);
                        }
                        let ghost d = dist[node as int];
                        let out = self.bfs_expand(
                            node,
                            start,
                            goal,
                            &mut queue,
                            &mut previous,
                            &mut seen,
                            Ghost(rank),
                            Ghost(next_rank),
                            Ghost(dist),
                        );
                        proof {
                            rank = out@.0;
                            next_rank = out@.1;
                            dist = out@.2;
                            lemma_band_front(queue@, dist, d);
                        }
                    }
                },
            }
        }
        proof {
            if !seen@[goal as int] {
                assert(queue@.len() == 0);
                let p = choose|p: Seq<int>| #[trigger] m.is_walk(p) && p[0] == start as int && p.last() == goal as int;
                assert forall|v: int, w: int| 0 <= v < seen.len() && #[trigger] seen@[v] && #[trigger] m.linked(v, w) implies seen@[w] by {
                    assert(v != goal);
                }
                lemma_walk_closed(m, p, seen@);
            }
            assert(chain_to(previous@, goal as int, start as int, rank[goal as int]));
        }
        let ids = reconstruct(&previous, start, goal, Ghost(rank));
        let ghost p = ids@.map_values(|v: usize| v as int);
        proof {
            assert forall|k: int| 0 <= k < p.len() - 1 implies #[trigger] m.walk_step(p, k) by {
                assert(previous@[ids@[k + 1] as int] == Some(ids@[k]));
                assert(ids@[k + 1] != start);
            }
            assert(m.is_walk(p));
            lemma_chain_hops(m, start as int, previous@, seen@, dist, ids@, ids.len() - 1);
            assert forall|w: Seq<int>| #[trigger] m.is_walk(w) && w[0] == start as int && w.last() == goal as int implies ids.len() <= w.len() by {
                assert(seen@[w.last()]);
            }
        }
        let nodes = self.labels_of(&ids);
        assert(nodes@.map_values(|s: String| s@).len() == nodes.len());
        assert(nodes.len() == ids.len());
        let cost = #[verifier::truncate] ((ids.len() - 1) as u32);
        PathResult {
            found: ids.len() > 0,
            mode: PathMode::Hops,
            cost,
            nodes,
            visited,
            explanation: String::from_str("BFS minimizes the number of entity-to-entity hops; O(V + E)."),
        }
    }

    /// `nodes` names, in order, the nodes of a walk from `a` to `b` of
    /// total edge cost `cost`.
    pub open spec fn names_walk_costing(self, nodes: Seq<String>, a: int, b: int, cost: int) -> bool {
        exists|p: Seq<int>|
            #[trigger] self.model().is_walk(p) && p[0] == a && p.last() == b && nodes.map_values(|s: String| s@)
                == self.labels_along(p) && self.model().walk_cost(p) == cost
    }

    /// Relaxes every edge of the settled `node`.
    fn relax_edges(
        &self,
        node: usize,
        start: usize,
        goal: usize,
        distance: &mut Vec<u32>,
        previous: &mut Vec<Option<usize>>,
        queue: &mut IndexedMinHeap,
        settled: Ghost<Seq<bool>>,
    )
        requires
            self.wf(),
            node < self.label_seq().len(),
            node != goal,
            settled@[node as int],
            old(queue).wf(),
            old(queue).capacity() == self.label_seq().len(),
            dijkstra_ok(self.model(), start as int, goal as int, node as int, old(distance)@, old(previous)@, settled@, old(queue).entries()),
        ensures
            final(queue).wf(),
            final(queue).capacity() == self.label_seq().len(),
            dijkstra_ok(self.model(), start as int, goal as int, -1, final(distance)@, final(previous)@, settled@, final(queue).entries()),
    {
        let ghost m = self.model();
        let ghost n = self.labels.len();
        let cost = distance[node];
        let mut k: usize = 0;
        while k < self.adjacency[node].len()
            invariant
                self.wf(),
                m == self.model(),
                n == self.labels.len(),
                node < n,
                node != goal,
                settled@[node as int],
                queue.wf(),
                queue.capacity() == n,
                dijkstra_ok(m, start as int, goal as int, node as int, distance@, previous@, settled@, queue.entries()),
                cost == distance@[node as int],
                k <= self.adjacency@[node as int]@.len(),
                forall|t: int|
                    0 <= t < k ==> distance@[(#[trigger] self.adjacency@[node as int]@[t]).0 as int] <= sat_sum(
                        cost as int,
                        m.edge_cost(node as int, self.adjacency@[node as int]@[t].0 as int),
                    ),
            decreases self.adjacency@[node as int]@.len() - k,
        {
            let (next, edge) = self.adjacency[node][k];
            let ghost row = self.adjacency@[node as int]@;
            assert(row[k as int] == (next, edge));
            assert(next < n);
            proof {
                assert(row_has(row, next, edge));
                assert(row_key(row, next));
                self.lemma_linked_row(node as int, next);
            }
            let reduced = 11u32.saturating_sub(edge.risk);
            let edge_cost = if reduced > 1 { reduced } else { 1 };
            assert(edge_cost == m.edge_cost(node as int, next as int));
            let candidate = cost.saturating_add(edge_cost);
            if candidate < distance[next] {
                proof {
                    lemma_relax(m, start as int, goal as int, distance@, previous@, settled@, queue.entries(), node, next, candidate);
                }
                distance.set(next, candidate);
                previous.set(next, Some(node));
                queue.push_or_decrease(next, candidate);
            }
            k += 1;
        }
        proof {
            assert forall|u: int, v: int|
                0 <= u < n && #[trigger] settled@[u] && u != goal && u != -1 && #[trigger] m.linked(u, v) implies distance@[v]
                    <= sat_sum(distance@[u] as int, m.edge_cost(u, v)) by {
                if u == node {
                    self.lemma_linked_row(node as int, v as usize);
                    let row = self.adjacency@[node as int]@;
                    let t = choose|t: int| 0 <= t < row.len() && (#[trigger] row[t]).0 == v as usize;
                    assert(distance@[self.adjacency@[node as int]@[t].0 as int] <= sat_sum(cost as int, m.edge_cost(node as int, v)));
                }
            }
        }
    }

    /// Dijkstra's search from `start` to `goal`, where an edge of risk `r`
    /// costs `max(1, 11 - r)`.
    fn dijkstra(&self, start: usize, goal: usize) -> (r: PathResult)
        requires
            self.wf(),
            start < self.label_seq().len(),
            goal < self.label_seq().len(),
        ensures
            r.mode == PathMode::Risk,
            r.found ==> self.names_walk_costing(r.nodes@, start as int, goal as int, r.cost as int),
            r.found ==> forall|p: Seq<int>|
                #[trigger] self.model().is_walk(p) && p[0] == start && p.last() == goal ==> r.cost <= self.model().walk_cost(p),
            !r.found ==> {
                &&& r.nodes.len() == 0
                &&& r.cost == u32::MAX
                &&& forall|p: Seq<int>|
                    #[trigger] self.model().is_walk(p) && p[0] == start && p.last() == goal ==> self.model().walk_cost(p) >= u32::MAX
            },
            1 <= r.visited <= self.label_seq().len(),
            r.explanation@ == "Dijkstra uses an indexed min-heap and inverse severity cost (11 - risk); O((V + E) log V)."@,
    {
        let n = self.labels.len();
        let ghost m = self.model();
        let mut distance: Vec<u32> = Vec::new();
        let mut previous: Vec<Option<usize>> = Vec::new();
        let mut i: usize = 0;
        while i < n
            invariant
                i <= n,
                distance.len() == i,
                previous.len() == i,
                forall|v: int| 0 <= v < i ==> (#[trigger] distance@[v]) == u32::MAX,
                forall|v: int| 0 <= v < i ==> (#[trigger] previous@[v]) is None,
            decreases n - i,
        {
            distance.push(u32::MAX);
            previous.push(None);
            i += 1;
        }
        let mut queue = IndexedMinHeap::new(n);
        distance.set(start, 0);
        queue.push_or_decrease(start, 0);
        let ghost mut settled: Seq<bool> = Seq::new(n as nat, |v: int| false);
        proof {
            assert(queue.entries() =~= Map::<usize, u32>::empty().insert(start, 0u32));
            lemma_count_none(settled);
            assert(dijkstra_ok(m, start as int, goal as int, -1, distance@, previous@, settled, queue.entries()));
        }
        let mut visited: usize = 0;
        let mut done = false;
        while !done
            invariant
                self.wf(),
                m == self.model(),
                n == self.labels.len(),
                start < n,
                goal < n,
                queue.wf(),
                queue.capacity() == n,
                dijkstra_ok(m, start as int, goal as int, -1, distance@, previous@, settled, queue.entries()),
                visited == count_true(settled),
                count_true(settled) <= n,
                !done ==> !settled[goal as int],
                done ==> settled[goal as int] || queue.entries() == Map::<usize, u32>::empty(),
                visited >= 1 || !done,
                visited >= 1 || queue.entries().contains_key(start),
            decreases n - count_true(settled) + (if done { 0int } else { 1int }),
        {
            let ghost q0 = queue.entries();
            match queue.pop_min() {
                None => {
                    done = true;
                },
                Some((node, cost)) => {
                    proof {
                        lemma_settle(m, start as int, goal as int, distance@, previous@, settled, q0, node);
                        lemma_count_set(settled, node as int);
                        settled = settled.update(node as int, true);
                        lemma_count_bound(settled);
                    }
                    visited += 1;
                    if node == goal {
                        done = true;
                    } else if cost != distance[node] {
                        assert(false);
                    } else {
                        self.relax_edges(node, start, goal, &mut distance, &mut previous, &mut queue, Ghost(settled));
                    }
                },
            }
        }
        let ghost rank = distance@.map_values(|d: u32| d as nat);
        proof {
            assert forall|v: int|
                0 <= v < previous.len() && (#[trigger] previous@[v]) is Some implies (previous@[v]->Some_0 as int)
                    < previous.len() && rank[previous@[v]->Some_0 as int] < rank[v] by {
                let u = previous@[v]->Some_0 as int;
                assert(m.edge_cost(u, v) >= 1);
            }
            if settled[goal as int] {
                lemma_dist_chain(m, start as int, goal as int, -1, distance@, previous@, settled, queue.entries(), goal as int);
                assert(rank[goal as int] == distance@[goal as int] as nat);
            }
        }
        let ids = reconstruct(&previous, start, goal, Ghost(rank));
        let ghost p = ids@.map_values(|v: usize| v as int);
        proof {
            if ids.len() > 0 {
                assert forall|k: int| 0 <= k < p.len() - 1 implies #[trigger] previous@[p[k + 1]] == Some(p[k] as usize) by {
                    assert(previous@[ids@[k + 1] as int] == Some(ids@[k]));
                }
                lemma_parent_walk_cost(m, start as int, goal as int, -1, distance@, previous@, settled, queue.entries(), p);
                if !settled[goal as int] {
                    assert(!queue.entries().contains_key(goal));
                    if ids.len() > 1 {
                        let k = ids.len() - 2;
                        assert(previous@[ids@[k + 1] as int] == Some(ids@[k]));
                        assert(ids@[k + 1] == goal);
                        assert(previous@[goal as int] is Some);
                    }
                    assert(false);
                }
            } else {
                assert(!settled[goal as int]);
                assert(!queue.entries().contains_key(goal));
                assert forall|w: Seq<int>|
                    #[trigger] m.is_walk(w) && w[0] == start && w.last() == goal implies m.walk_cost(w) >= u32::MAX by {
                    lemma_walk_bound(m, start as int, goal as int, distance@, previous@, settled, queue.entries(), u32::MAX as int, w);
                }
            }
        }
        let nodes = self.labels_of(&ids);
        assert(nodes@.map_values(|s: String| s@).len() == nodes.len());
        PathResult {
            found: ids.len() > 0,
            mode: PathMode::Risk,
            cost: distance[goal],
            nodes,
            visited,
            explanation: String::from_str(
                "Dijkstra uses an indexed min-heap and inverse severity cost (11 - risk); O((V + E) log V).",
            ),
        }
    }

    /// A result that reports no path, with the reason.
    fn not_found(&self, mode: PathMode, explanation: &str, visited: usize) -> (r: PathResult)
        ensures
            !r.found,
            r.mode == mode,
            r.nodes.len() == 0,
            r.cost == 0,
            r.visited == visited,
            r.explanation@ == explanation@,
    {
        PathResult { found: false, mode, nodes: Vec::new(), cost: 0, visited, explanation: String::from_str(explanation) }
    }

    /// The number of the node with the given label, if any.
    fn node_of(&self, label: &str) -> (r: Option<usize>)
        requires
            self.wf(),
        ensures
            match r {
                Some(i) => i < self.label_seq().len() && self.label_seq()[i as int] == label@,
                None => !self.label_seq().contains(label@),
            },
    {
        let key = chars_of(label);
        let found = self.lookup.find_exact(key.as_slice());
        if found.len() > 0 {
            let id = found[0];
            assert(found@.contains(id));
            Some(id)
        } else {
            proof {
                if self.label_seq().contains(label@) {
                    let x = choose|x: int| 0 <= x < self.label_seq().len() && self.label_seq()[x] == label@;
                    assert(self.lookup.contents().contains((label@, x as usize)));
                    assert(found@.contains(x as usize));
                }
            }
            None
        }
    }

    /// The node numbered `i` carries label `s`.
    pub open spec fn labelled(self, i: int, s: Seq<char>) -> bool {
        0 <= i < self.label_seq().len() && self.label_seq()[i] == s
    }

    /// A path between two entities: the fewest hops (breadth-first search)
    /// or the cheapest chain where an edge of risk `r` costs `max(1, 11 - r)`
    /// (Dijkstra), or no path with the reason.
    /// `r` answers a path search from the entity labelled `from` to the one
    /// labelled `to`.
    pub open spec fn path_answer(self, from: Seq<char>, to: Seq<char>, mode: PathMode, r: PathResult) -> bool {
        &&& r.mode == mode
        &&& !self.label_seq().contains(from) ==> !r.found && r.nodes.len() == 0 && r.cost == 0 && r.visited == 0
                && r.explanation@ == "source entity does not exist"@
        &&& self.label_seq().contains(from) && !self.label_seq().contains(to) ==> !r.found && r.nodes.len() == 0
                && r.cost == 0 && r.visited == 0 && r.explanation@ == "target entity does not exist"@
        &&& forall|a: int, b: int|
                self.labelled(a, from) && self.labelled(b, to) ==> {
                    &&& !self.model().connected(a, b) ==> !r.found && r.nodes.len() == 0 && r.cost == 0 && r.visited == 0
                        && r.explanation@ == "entities are in disconnected components"@
                    &&& self.model().connected(a, b) && mode == PathMode::Hops ==> {
                        &&& r.found
                        &&& self.names_walk(r.nodes@, a, b)
                        &&& r.cost == (r.nodes.len() - 1) as u32
                        &&& forall|p: Seq<int>|
                            #[trigger] self.model().is_walk(p) && p[0] == a && p.last() == b ==> r.nodes.len() <= p.len()
                        &&& 1 <= r.visited <= self.label_seq().len()
                        &&& r.explanation@ == "BFS minimizes the number of entity-to-entity hops; O(V + E)."@
                    }
                    &&& self.model().connected(a, b) && mode == PathMode::Risk ==> {
                        &&& r.found ==> self.names_walk_costing(r.nodes@, a, b, r.cost as int)
                        &&& r.found ==> forall|p: Seq<int>|
                            #[trigger] self.model().is_walk(p) && p[0] == a && p.last() == b ==> r.cost <= self.model().walk_cost(p)
                        &&& !r.found ==> r.nodes.len() == 0 && r.cost == u32::MAX && forall|p: Seq<int>|
                            #[trigger] self.model().is_walk(p) && p[0] == a && p.last() == b ==> self.model().walk_cost(p) >= u32::MAX
                        &&& 1 <= r.visited <= self.label_seq().len()
                        &&& r.explanation@ == "Dijkstra uses an indexed min-heap and inverse severity cost (11 - risk); O((V + E) log V)."@
                    }
                }
    }

    /// A path between two entities: the fewest hops by breadth-first
    /// search, or the least risk cost by Dijkstra's algorithm.
    pub fn path(&self, from: &str, to: &str, mode: PathMode) -> (r: PathResult)
        requires
            self.wf(),
        ensures
            self.path_answer(from@, to@, mode, r),
    {
        let start = match self.node_of(from) {
            Some(i) => i,
            None => {
                return self.not_found(mode, "source entity does not exist", 0);
            },
        };
        let goal = match self.node_of(to) {
            Some(i) => i,
            None => {
                return self.not_found(mode, "target entity does not exist", 0);
            },
        };
        proof {
            assert forall|a: int| #[trigger] self.labelled(a, from@) implies a == start by {
                if a != start {
                    assert(self.label_seq()[a] != self.label_seq()[start as int]);
                }
            }
            assert forall|b: int| #[trigger] self.labelled(b, to@) implies b == goal by {
                if b != goal {
                    assert(self.label_seq()[b] != self.label_seq()[goal as int]);
                }
            }
        }
        if self.components[start] != self.components[goal] {
            return self.not_found(mode, "entities are in disconnected components", 0);
        }
        match mode {
            PathMode::Hops => self.bfs(start, goal),
            PathMode::Risk => self.dijkstra(start, goal),
        }
    }
}

} // verus!
