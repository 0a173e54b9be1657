use traceforge::graph::{EntityGraph, PathMode};
use traceforge::heap::IndexedMinHeap;
use traceforge::synthetic::{generate_events, Scenario};

#[test]
fn bfs_and_dijkstra_find_paths() {
    let graph = EntityGraph::build(&generate_events(200, 7, Scenario::Mixed));
    let nodes = graph.nodes();
    let user = nodes.iter().find(|node| node.kind == "user").unwrap();
    let host = nodes
        .iter()
        .find(|node| node.kind == "host" && node.component == user.component)
        .unwrap();
    assert!(graph.path(&user.id, &host.id, PathMode::Hops).found);
    assert!(graph.path(&user.id, &host.id, PathMode::Risk).found);
}

#[test]
fn missing_entities_return_an_explanation() {
    let graph = EntityGraph::build(&[]);
    let result = graph.path("user:nobody", "host:none", PathMode::Hops);
    assert!(!result.found);
    assert!(result.explanation.contains("source"));
}

#[test]
fn indexed_heap_decreases_priority() {
    let mut heap = IndexedMinHeap::new(4);
    heap.push_or_decrease(1, 9);
    heap.push_or_decrease(2, 4);
    heap.push_or_decrease(1, 2);
    assert_eq!(heap.pop_min(), Some((1, 2)));
}

#[test]
fn heap_pops_in_priority_order_and_empties() {
    let mut heap = IndexedMinHeap::new(5);
    heap.push_or_decrease(0, 7);
    heap.push_or_decrease(3, 1);
    heap.push_or_decrease(4, 5);
    heap.push_or_decrease(4, 9);
    assert_eq!(heap.pop_min(), Some((3, 1)));
    assert_eq!(heap.pop_min(), Some((4, 5)));
    assert_eq!(heap.pop_min(), Some((0, 7)));
    assert_eq!(heap.pop_min(), None);
}

#[test]
fn missing_target_has_its_own_explanation() {
    let events = generate_events(50, 3, Scenario::Baseline);
    let graph = EntityGraph::build(&events);
    let user = graph.nodes().into_iter().find(|node| node.kind == "user").unwrap();
    let result = graph.path(&user.id, "host:nowhere", PathMode::Risk);
    assert!(!result.found);
    assert_eq!(result.explanation, "target entity does not exist");
    assert!(result.nodes.is_empty());
}

#[test]
fn a_path_starts_and_ends_at_its_endpoints() {
    let graph = EntityGraph::build(&generate_events(120, 11, Scenario::LateralMovement));
    let nodes = graph.nodes();
    let user = nodes.iter().find(|node| node.id == "user:svc-backup").unwrap();
    let host = nodes
        .iter()
        .find(|node| node.id == "host:dc-01" && node.component == user.component)
        .unwrap();
    let hops = graph.path(&user.id, &host.id, PathMode::Hops);
    assert!(hops.found);
    assert_eq!(hops.nodes.first().unwrap(), &user.id);
    assert_eq!(hops.nodes.last().unwrap(), &host.id);
    assert_eq!(hops.cost as usize, hops.nodes.len() - 1);
    let same = graph.path(&user.id, &user.id, PathMode::Hops);
    assert!(same.found);
    assert_eq!(same.nodes, vec![user.id.clone()]);
    assert_eq!(same.cost, 0);
}

#[test]
fn edges_are_reported_once_with_endpoints_in_order() {
    let graph = EntityGraph::build(&generate_events(80, 5, Scenario::Baseline));
    let edges = graph.edges();
    assert!(!edges.is_empty());
    for (k, edge) in edges.iter().enumerate() {
        assert_ne!(edge.source, edge.target);
        assert!(edge.observations >= 1);
        for other in &edges[k + 1..] {
            let same = other.source == edge.source && other.target == edge.target;
            let swapped = other.source == edge.target && other.target == edge.source;
            assert!(!same && !swapped);
        }
    }
}

#[test]
fn hop_paths_are_never_longer_than_risk_paths() {
    let graph = EntityGraph::build(&generate_events(300, 13, Scenario::Mixed));
    let nodes = graph.nodes();
    let user = nodes.iter().find(|node| node.id == "user:ana").unwrap();
    for target in nodes.iter().filter(|node| node.component == user.component).take(12) {
        let hops = graph.path(&user.id, &target.id, PathMode::Hops);
        let risk = graph.path(&user.id, &target.id, PathMode::Risk);
        assert!(hops.found && risk.found);
        assert!(hops.nodes.len() <= risk.nodes.len());
    }
}

fn root(parent: &mut Vec<usize>, x: usize) -> usize {
    let mut r = x;
    while parent[r] != r {
        r = parent[r];
    }
    r
}

#[test]
fn components_are_union_find_roots_over_listed_edges() {
    let graph = EntityGraph::build(&generate_events(150, 11, Scenario::Mixed));
    let nodes = graph.nodes();
    let edges = graph.edges();
    let n = nodes.len();
    let number = |id: &str| nodes.iter().position(|node| node.id == id).unwrap();
    let mut neighbours: Vec<Vec<usize>> = vec![Vec::new(); n];
    for edge in &edges {
        let (a, b) = (number(&edge.source), number(&edge.target));
        neighbours[a].push(b);
        neighbours[b].push(a);
    }
    for row in neighbours.iter_mut() {
        row.sort();
    }
    let mut parent: Vec<usize> = (0..n).collect();
    let mut rank = vec![0u8; n];
    for from in 0..n {
        for &to in &neighbours[from] {
            let (a, b) = (root(&mut parent, from), root(&mut parent, to));
            if a == b {
                continue;
            }
            if rank[a] < rank[b] {
                parent[a] = b;
            } else if rank[a] > rank[b] {
                parent[b] = a;
            } else {
                parent[b] = a;
                rank[a] += 1;
            }
        }
    }
    for (i, node) in nodes.iter().enumerate() {
        assert_eq!(node.component, root(&mut parent, i), "node {}", node.id);
    }
    for i in 0..n {
        for j in 0..n {
            let joined = root(&mut parent, i) == root(&mut parent, j);
            assert_eq!(nodes[i].component == nodes[j].component, joined);
        }
    }
}
