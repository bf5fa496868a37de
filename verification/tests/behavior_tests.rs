use neurographite::coordinator::DatabaseConfig;
use neurographite::errors::GraphError;
use neurographite::frontend::StaticFileServer;
use neurographite::hypergraph::{HyperGraph, HyperNode, PropEntry};
use neurographite::network::{AlignmentType, EffectType, NetworkAnalyzer};
use neurographite::neural::SpikeProcessor;
use neurographite::Database;

fn isolated_node(id: u128, node_type: &str) -> HyperNode {
    HyperNode {
        id,
        data: String::new(),
        created_at: 0,
        updated_at: 0,
        activation_level: 0,
        last_spike_time: None,
        spike_count: 0,
        node_type: node_type.to_string(),
        tags: Vec::new(),
        properties: Vec::new(),
    }
}

fn graph_of_isolated(nodes: Vec<HyperNode>) -> HyperGraph {
    let adjacency = nodes.iter().map(|_| Vec::new()).collect();
    HyperGraph { nodes, edges: Vec::new(), node_to_edges: adjacency, edge_to_nodes: Vec::new() }
}

/// A chain A-B-C-D-E at strength 0.8 attenuates each hop by the edge
/// conductance and the configured decay, and the source is excluded.
#[test]
fn chain_cascade_strengths() {
    let mut graph = HyperGraph::new();
    let ids: Vec<u128> = (1..=5u128).collect();
    for id in &ids {
        graph.add_node(*id, String::new(), 0).unwrap();
    }
    for w in 0..4usize {
        graph
            .add_hyperedge(100 + w as u128, vec![ids[w], ids[w + 1]], "chain".to_string(), 800_000, 0)
            .unwrap();
    }
    let engine = SpikeProcessor::new(DatabaseConfig::default(), 0);
    let effects = engine.simulate_cascade(&graph, ids[0], 1_000_000);

    assert_eq!(effects.len(), 4);
    assert_eq!(effects[0], (ids[1], 792_000));
    assert_eq!(effects[1], (ids[2], 627_264));
    assert_eq!(effects[2], (ids[3], 496_792));
    assert_eq!(effects[3], (ids[4], 393_458));
    assert!(effects.iter().all(|(id, _)| *id != ids[0]));
}

/// A node inside its refractory window rejects a second spike: the
/// spike total grows once and the activation keeps the first value.
#[test]
fn refractory_suppression() {
    let mut engine = SpikeProcessor::new(DatabaseConfig::default(), 0);
    let x: u128 = 7;
    engine.process_new_node(x);

    engine.propagate_spike(vec![x], 900_000, 1_000);
    engine.propagate_spike(vec![x], 500_000, 1_050);

    assert_eq!(engine.neural_state.total_spikes, 1);
    let act = engine
        .neural_state
        .activations
        .iter()
        .find(|(id, _)| *id == x)
        .map(|(_, a)| *a)
        .unwrap();
    assert_eq!(act, 900_000);
}

/// After the refractory deadline passes, the node spikes again.
#[test]
fn refractory_expiry() {
    let mut engine = SpikeProcessor::new(DatabaseConfig::default(), 0);
    let x: u128 = 7;
    engine.propagate_spike(vec![x], 900_000, 1_000);
    engine.propagate_spike(vec![x], 500_000, 1_200);

    assert_eq!(engine.neural_state.total_spikes, 2);
    let act = engine
        .neural_state
        .activations
        .iter()
        .find(|(id, _)| *id == x)
        .map(|(_, a)| *a)
        .unwrap();
    assert_eq!(act, 500_000);
}

/// In a triangle the two silent peers of the target each share one
/// neighbour with it, so both score 0.4 + 0.2 + 0.2 = 0.8.
#[test]
fn triangle_similarity() {
    let mut graph = HyperGraph::new();
    let (x, y, z) = (1u128, 2u128, 3u128);
    for id in [x, y, z] {
        graph.add_node(id, String::new(), 0).unwrap();
    }
    graph.add_hyperedge(10, vec![x, y], "r".to_string(), 500_000, 0).unwrap();
    graph.add_hyperedge(11, vec![x, z], "r".to_string(), 500_000, 0).unwrap();
    graph.add_hyperedge(12, vec![y, z], "r".to_string(), 500_000, 0).unwrap();

    let engine = SpikeProcessor::new(DatabaseConfig::default(), 0);
    let similar = engine.find_similar_nodes(&graph, x, 0, 1_000);

    assert_eq!(similar.len(), 2);
    assert!(similar.contains(&(y, 800_000)));
    assert!(similar.contains(&(z, 800_000)));
}

/// The result of a similarity query never increases along the list.
#[test]
fn similarity_sorted_descending() {
    let mut db = Database::new();
    let mut ids = Vec::new();
    for w in 0..6 {
        ids.push(db.add_node(format!("{{\"w\":{}}}", w)).unwrap());
    }
    db.connect_nodes(vec![ids[0], ids[1]], "r".to_string(), 900_000).unwrap();
    db.connect_nodes(vec![ids[1], ids[2]], "r".to_string(), 400_000).unwrap();
    db.connect_nodes(vec![ids[2], ids[3]], "r".to_string(), 200_000).unwrap();

    let similar = db.find_similar(ids[0], -2_000_000);
    assert_eq!(similar.len(), 5);
    for w in 1..similar.len() {
        assert!(similar[w - 1].1 >= similar[w].1);
    }
}

/// Connecting through an unknown node fails atomically.
#[test]
fn unknown_node_rejection() {
    let mut db = Database::new();
    let a = db.add_node("{}".to_string()).unwrap();
    let missing_id: u128 = 0xdead_beef;

    let result = db.connect_nodes(vec![a, missing_id], "r".to_string(), 500_000);
    assert_eq!(result, Err(GraphError::UnknownNode));

    let stats = db.stats();
    assert_eq!(stats.edge_count, 0);
    assert!(db.graph.get_node_edges(a).is_empty());
}

/// Re-inserting an id is rejected without mutating.
#[test]
fn duplicate_id_rejection() {
    let mut graph = HyperGraph::new();
    graph.add_node(1, "first".to_string(), 0).unwrap();
    assert_eq!(graph.add_node(1, "second".to_string(), 5), Err(GraphError::DuplicateId));
    assert_eq!(graph.node_count(), 1);
    assert_eq!(graph.get_node(1).unwrap().data, "first");

    graph.add_node(2, String::new(), 0).unwrap();
    graph.add_hyperedge(9, vec![1, 2], "r".to_string(), 100_000, 0).unwrap();
    assert_eq!(
        graph.add_hyperedge(9, vec![1], "r".to_string(), 100_000, 0),
        Err(GraphError::DuplicateId)
    );
    assert_eq!(graph.edge_count(), 1);
}

/// Updating an unknown edge reports `UnknownEdge`.
#[test]
fn unknown_edge_rejection() {
    let mut graph = HyperGraph::new();
    assert_eq!(graph.update_edge_conductance(42, 100_000, 0), Err(GraphError::UnknownEdge));
}

/// Decay multiplies node activations by the given rate and each edge
/// conductance by that edge's own decay factor.
#[test]
fn decay_is_pointwise() {
    let mut graph = HyperGraph::new();
    graph.add_node(1, String::new(), 0).unwrap();
    graph.add_node(2, String::new(), 0).unwrap();
    graph.add_hyperedge(10, vec![1, 2], "r".to_string(), 600_000, 0).unwrap();
    graph.update_node_activation(1, 800_000, 0).unwrap();

    graph.apply_decay(900_000);

    assert_eq!(graph.get_node(1).unwrap().activation_level, 720_000);
    assert_eq!(graph.get_node(2).unwrap().activation_level, 0);
    // 600000 * 0.99 = 594000: the edge used its own weight_decay.
    assert_eq!(graph.get_edge(10).unwrap().conductance, 594_000);
}

/// Synaptic weights stay within [-1, 1] through any updates.
#[test]
fn synaptic_weights_clamped() {
    let mut engine = SpikeProcessor::new(DatabaseConfig::default(), 0);
    let (a, b) = (3u128, 1u128);

    engine.update_synaptic_weights(a, b, 1_000_000_000);
    let w = engine.neural_state.synaptic_weights[0];
    assert_eq!((w.a, w.b), (1, 3));
    assert_eq!(w.weight, 1_000_000);

    engine.update_synaptic_weights(a, b, 1_000_000_000);
    assert_eq!(engine.neural_state.synaptic_weights[0].weight, 1_000_000);

    engine.update_synaptic_weights(b, a, -1_000_000_000);
    engine.update_synaptic_weights(b, a, -1_000_000_000);
    assert_eq!(engine.neural_state.synaptic_weights[0].weight, -1_000_000);

    engine.update_synaptic_weights(a, b, 500_000);
    // -1.0 + 0.005 = -0.995.
    assert_eq!(engine.neural_state.synaptic_weights[0].weight, -995_000);
}

/// A temporal decay sweep scales activations, prunes old history and
/// expired refractory deadlines, and counts the cycle.
#[test]
fn temporal_decay_sweep() {
    let mut engine = SpikeProcessor::new(DatabaseConfig::default(), 0);
    engine.propagate_spike(vec![1], 900_000, 1_000);
    engine.propagate_spike(vec![2], 600_000, 2_000);

    engine.apply_temporal_decay(1_050);
    // 0.9 * 0.99 and 0.6 * 0.99.
    let acts: Vec<u64> = engine.neural_state.activations.iter().map(|(_, a)| *a).collect();
    assert_eq!(acts, vec![891_000, 594_000]);
    // Node 1's deadline (1100) is still ahead of 1050.
    assert_eq!(engine.neural_state.refractory_until.len(), 2);
    assert_eq!(engine.neural_state.spike_history.len(), 2);
    assert_eq!(engine.neural_state.processing_cycles, 1);

    engine.apply_temporal_decay(5_000_000);
    assert_eq!(engine.neural_state.refractory_until.len(), 0);
    assert_eq!(engine.neural_state.spike_history.len(), 0);
    assert_eq!(engine.neural_state.processing_cycles, 2);
}

/// Engine statistics: totals, the active count, the mean activation.
#[test]
fn engine_stats() {
    let mut engine = SpikeProcessor::new(DatabaseConfig::default(), 0);
    engine.process_new_node(1);
    engine.propagate_spike(vec![2], 600_000, 0);
    engine.propagate_spike(vec![3], 5_000, 100);

    let stats = engine.stats();
    assert_eq!(stats.total_spikes, 2);
    assert_eq!(stats.active_neurons, 1);
    // (0 + 600000 + 5000) / 3.
    assert_eq!(stats.average_activation, 201_666);
}

/// A strong broad chain cascade classifies as synergistic; an empty
/// one as neutral.
#[test]
fn network_effect_classification() {
    let mut graph = HyperGraph::new();
    let ids: Vec<u128> = (1..=5u128).collect();
    for id in &ids {
        graph.add_node(*id, String::new(), 0).unwrap();
    }
    for w in 0..4usize {
        graph
            .add_hyperedge(100 + w as u128, vec![ids[w], ids[w + 1]], "chain".to_string(), 800_000, 0)
            .unwrap();
    }
    let effect = NetworkAnalyzer::analyze_network_effects(&graph, ids[0], 1_000_000, 10);
    assert_eq!(effect.source_node, ids[0]);
    assert_eq!(effect.affected_nodes.len(), 4);
    // 792000 * 0.9 / 0.99 path: hop rate here is 0.9, not the decay.
    assert_eq!(effect.affected_nodes[0], (ids[1], 720_000));
    assert_eq!(effect.cascade_depth, 4);
    assert_eq!(effect.effect_type, EffectType::Synergistic);

    let lonely = NetworkAnalyzer::analyze_network_effects(&graph, 999, 1_000_000, 10);
    assert_eq!(lonely.affected_nodes.len(), 0);
    assert_eq!(lonely.total_effect, 0);
    assert_eq!(lonely.effect_type, EffectType::Neutral);
}

/// Goal alignment of two isolated nodes of the same type: structure
/// 1.0, semantics 1/3, temporal 0.8, so 0.693333 and a High class
/// with its canned texts.
#[test]
fn goal_alignment_values() {
    let graph = graph_of_isolated(vec![isolated_node(1, "alpha"), isolated_node(2, "alpha")]);
    let al = NetworkAnalyzer::analyze_goal_alignment(&graph, 1, 2).unwrap();

    assert_eq!(al.alignment_score, 693_333);
    assert_eq!(al.alignment_type, AlignmentType::High);
    assert_eq!(al.potential_value, 4_853_331);
    assert_eq!(al.opportunities, vec!["Strong collaboration potential".to_string()]);
    assert_eq!(al.risks, vec!["Minor goal conflicts to resolve".to_string()]);

    let missing = NetworkAnalyzer::analyze_goal_alignment(&graph, 1, 9);
    assert_eq!(missing.err(), Some(GraphError::UnknownNode));
}

/// Greedy pairing matches the first candidate with its best partner,
/// then the remaining pair; it does not search for a maximum-weight
/// matching.
#[test]
fn greedy_pairing_discipline() {
    let graph = graph_of_isolated(vec![
        isolated_node(1, "alpha"),
        isolated_node(2, "alpha"),
        isolated_node(3, "beta"),
        isolated_node(4, "beta"),
    ]);
    let pairs = NetworkAnalyzer::find_optimal_pairs(&graph, &vec![1, 2, 3, 4], 2);

    assert_eq!(pairs.len(), 2);
    let matched: Vec<(u128, u128)> = pairs.iter().map(|al| (al.node1, al.node2)).collect();
    assert!(matched.contains(&(1, 2)));
    assert!(matched.contains(&(3, 4)));
}

/// Centrality: degree counts incident edges, the placeholders stay at
/// 0.5, and the eigenvector approximation is ln(neighbours)/10.
#[test]
fn centrality_measures() {
    let mut graph = HyperGraph::new();
    for id in [1u128, 2, 3] {
        graph.add_node(id, String::new(), 0).unwrap();
    }
    graph.add_hyperedge(10, vec![1, 2], "r".to_string(), 500_000, 0).unwrap();
    graph.add_hyperedge(11, vec![1, 3], "r".to_string(), 500_000, 0).unwrap();

    let measures = NetworkAnalyzer::calculate_centrality_measures(&graph);
    assert_eq!(measures.len(), 3);
    let center = &measures[0].1;
    assert_eq!(measures[0].0, 1);
    assert_eq!(center.degree, 2);
    assert_eq!(center.betweenness, 500_000);
    assert_eq!(center.closeness, 500_000);
    // ln(2) = 0.693147, over ten.
    assert_eq!(center.eigenvector, 69_314);
    // One neighbour: ln(1) = 0.
    assert_eq!(measures[1].1.eigenvector, 0);
}

/// Property search returns exactly the nodes storing the value under
/// the key, in store order.
#[test]
fn property_search() {
    let mut graph = HyperGraph::new();
    graph.add_node(1, String::new(), 0).unwrap();
    graph.add_node(2, String::new(), 0).unwrap();
    graph.add_node(3, String::new(), 0).unwrap();
    graph.nodes[0].properties.push(PropEntry { key: "color".to_string(), value: "red".to_string() });
    graph.nodes[2].properties.push(PropEntry { key: "color".to_string(), value: "red".to_string() });
    graph.nodes[1].properties.push(PropEntry { key: "color".to_string(), value: "blue".to_string() });

    let red = graph.find_nodes_by_property(&"color".to_string(), &"red".to_string());
    assert_eq!(red, vec![1, 3]);
    let green = graph.find_nodes_by_property(&"color".to_string(), &"green".to_string());
    assert!(green.is_empty());
}

/// The mean degree counts incident edges per node, fixed-point.
#[test]
fn average_degree_value() {
    let mut graph = HyperGraph::new();
    assert_eq!(graph.average_degree(), 0);
    graph.add_node(1, String::new(), 0).unwrap();
    graph.add_node(2, String::new(), 0).unwrap();
    graph.add_hyperedge(10, vec![1, 2], "r".to_string(), 500_000, 0).unwrap();
    // Two nodes of degree one: mean 1.0.
    assert_eq!(graph.average_degree(), 1_000_000);
}

/// A duplicated participant gains the edge id once.
#[test]
fn duplicate_participant_once() {
    let mut graph = HyperGraph::new();
    graph.add_node(1, String::new(), 0).unwrap();
    graph.add_hyperedge(10, vec![1, 1], "self".to_string(), 500_000, 0).unwrap();
    assert_eq!(graph.get_node_edges(1), vec![10]);
    // A self-loop yields no neighbours.
    assert!(graph.get_neighbors(1).is_empty());
}

/// The two adjacency indices agree with the primary maps: every edge
/// id stands in the incident list of each participant, and every
/// listed edge id leads back to an edge naming the node.
#[test]
fn adjacency_indices_agree() {
    let mut graph = HyperGraph::new();
    for id in [1u128, 2, 3, 4] {
        graph.add_node(id, String::new(), 0).unwrap();
    }
    graph.add_hyperedge(10, vec![1, 2, 3], "trio".to_string(), 500_000, 0).unwrap();
    graph.add_hyperedge(11, vec![2, 4], "pair".to_string(), 500_000, 0).unwrap();

    for edge in graph.edges().clone() {
        for participant in &edge.node_ids {
            assert!(graph.get_node_edges(*participant).contains(&edge.id));
        }
    }
    for node in graph.nodes().clone() {
        for edge_id in graph.get_node_edges(node.id) {
            let edge = graph.get_edge(edge_id).unwrap();
            assert!(edge.node_ids.contains(&node.id));
        }
    }
    assert_eq!(graph.get_node_edges(1), vec![10]);
    assert_eq!(graph.get_node_edges(2), vec![10, 11]);
    assert_eq!(graph.get_node_edges(4), vec![11]);
}

type NodeTuple = (u128, String, u64, u64, u64, Option<u64>, u64, String, Vec<String>, Vec<(String, String)>);
type EdgeTuple = (u128, Vec<u128>, String, u64, u64, u64, u64, Option<u64>, u64, u64, Vec<(String, String)>);

fn node_to_tuple(n: &HyperNode) -> NodeTuple {
    (
        n.id,
        n.data.clone(),
        n.created_at,
        n.updated_at,
        n.activation_level,
        n.last_spike_time,
        n.spike_count,
        n.node_type.clone(),
        n.tags.clone(),
        n.properties.iter().map(|p| (p.key.clone(), p.value.clone())).collect(),
    )
}

fn edge_to_tuple(e: &neurographite::HyperEdge) -> EdgeTuple {
    (
        e.id,
        e.node_ids.clone(),
        e.relationship.clone(),
        e.strength,
        e.created_at,
        e.updated_at,
        e.conductance,
        e.last_activation,
        e.activation_count,
        e.weight_decay,
        e.properties.iter().map(|p| (p.key.clone(), p.value.clone())).collect(),
    )
}

/// A snapshot of the store written through plain values and read back
/// is structurally equal: nodes, edges and both indices survive.
#[test]
fn snapshot_round_trip() {
    let mut graph = HyperGraph::new();
    for id in [1u128, 2, 3] {
        graph.add_node(id, format!("payload-{}", id), 7).unwrap();
    }
    graph.add_hyperedge(10, vec![1, 2], "link".to_string(), 640_000, 8).unwrap();
    graph.add_hyperedge(11, vec![2, 3, 1], "trio".to_string(), 250_000, 9).unwrap();
    graph.update_node_activation(2, 750_000, 12).unwrap();

    let snapshot: (Vec<NodeTuple>, Vec<EdgeTuple>, Vec<Vec<u128>>, Vec<Vec<u128>>) = (
        graph.nodes().iter().map(node_to_tuple).collect(),
        graph.edges().iter().map(edge_to_tuple).collect(),
        graph.node_to_edges.clone(),
        graph.edge_to_nodes.clone(),
    );

    let bytes = bincode::serialize(&snapshot).unwrap();
    let restored: (Vec<NodeTuple>, Vec<EdgeTuple>, Vec<Vec<u128>>, Vec<Vec<u128>>) =
        bincode::deserialize(&bytes).unwrap();

    assert_eq!(restored.0, graph.nodes().iter().map(node_to_tuple).collect::<Vec<_>>());
    assert_eq!(restored.1, graph.edges().iter().map(edge_to_tuple).collect::<Vec<_>>());
    assert_eq!(restored.2, graph.node_to_edges);
    assert_eq!(restored.3, graph.edge_to_nodes);
}

/// The invariant check accepts what the operations build and rejects
/// a snapshot whose indices disagree with the primary maps.
#[test]
fn invariant_check_detects_corruption() {
    let mut graph = HyperGraph::new();
    graph.add_node(1, String::new(), 0).unwrap();
    graph.add_node(2, String::new(), 0).unwrap();
    graph.add_hyperedge(10, vec![1, 2], "r".to_string(), 500_000, 0).unwrap();
    assert!(graph.check_invariants());

    // An edge id indexed under a node that no stored edge backs.
    let mut corrupted = graph.clone();
    corrupted.node_to_edges[0].push(99);
    assert!(!corrupted.check_invariants());

    // An edge whose participant left the incident list.
    let mut corrupted = graph.clone();
    corrupted.node_to_edges[1].clear();
    assert!(!corrupted.check_invariants());

    // A duplicated node id.
    let mut corrupted = graph.clone();
    corrupted.nodes[1].id = 1;
    assert!(!corrupted.check_invariants());

    // An index of the wrong shape.
    let mut corrupted = graph.clone();
    corrupted.edge_to_nodes.clear();
    assert!(!corrupted.check_invariants());
}

/// Content types follow the file extension.
#[test]
fn content_types() {
    let server = StaticFileServer::new("./frontend");
    assert_eq!(server.frontend_dir, "./frontend");
    assert_eq!(server.get_content_type("/index.html"), "text/html; charset=utf-8");
    assert_eq!(server.get_content_type("style.css"), "text/css");
    assert_eq!(server.get_content_type("app.js"), "application/javascript");
    assert_eq!(server.get_content_type("data.json"), "application/json");
    assert_eq!(server.get_content_type("logo.png"), "image/png");
    assert_eq!(server.get_content_type("photo.jpg"), "image/jpeg");
    assert_eq!(server.get_content_type("photo.jpeg"), "image/jpeg");
    assert_eq!(server.get_content_type("icon.svg"), "image/svg+xml");
    assert_eq!(server.get_content_type("README"), "text/plain");
}
