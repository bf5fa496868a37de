use neurographite::{Database, DatabaseConfig, HyperGraph};

fn fresh_uuid() -> u128 {
    uuid::Uuid::new_v4().as_u128()
}

#[test]
fn test_database_creation() {
    let db = Database::new();
    let stats = db.stats();

    assert_eq!(stats.node_count, 0);
    assert_eq!(stats.edge_count, 0);
}

#[test]
fn test_node_operations() {
    let mut db = Database::new();

    let data = "{\"name\":\"Test Node\",\"type\":\"person\",\"goals\":[\"investment\",\"technology\"]}"
        .to_string();

    let node_id = db.add_node(data).unwrap();

    let stats = db.stats();
    assert_eq!(stats.node_count, 1);

    assert_ne!(node_id, 0u128);
}

#[test]
fn test_hyperedge_creation() {
    let mut db = Database::new();

    let node1 = db.add_node("{\"name\":\"Alice\"}".to_string()).unwrap();
    let node2 = db.add_node("{\"name\":\"Bob\"}".to_string()).unwrap();
    let node3 = db.add_node("{\"name\":\"Charlie\"}".to_string()).unwrap();

    let edge_id = db
        .connect_nodes(vec![node1, node2, node3], "collaboration".to_string(), 800_000)
        .unwrap();

    let stats = db.stats();
    assert_eq!(stats.node_count, 3);
    assert_eq!(stats.edge_count, 1);
    assert_ne!(edge_id, 0u128);
}

#[test]
fn test_similarity_search() {
    let mut db = Database::new();

    let similar_data =
        "{\"type\":\"investor\",\"interests\":[\"AI\",\"blockchain\"],\"risk_tolerance\":\"medium\"}";
    let different_data =
        "{\"type\":\"developer\",\"interests\":[\"gaming\",\"mobile\"],\"risk_tolerance\":\"high\"}";

    let target_node = db.add_node(similar_data.to_string()).unwrap();
    let similar_node = db.add_node(similar_data.to_string()).unwrap();
    let _different_node = db.add_node(different_data.to_string()).unwrap();

    db.connect_nodes(vec![target_node, similar_node], "shared_interest".to_string(), 700_000)
        .unwrap();

    let similar_nodes = db.find_similar(target_node, 300_000);

    assert!(!similar_nodes.is_empty());
    assert!(similar_nodes.iter().any(|(id, _)| *id == similar_node));
}

#[test]
fn test_network_effect_simulation() {
    let mut db = Database::new();

    let mut nodes = Vec::new();
    for i in 0..5 {
        let data = format!("{{\"id\":{},\"value\":{}}}", i, i * 10);
        let node_id = db.add_node(data).unwrap();
        nodes.push(node_id);
    }

    for i in 0..4 {
        db.connect_nodes(vec![nodes[i], nodes[i + 1]], "chain_link".to_string(), 800_000)
            .unwrap();
    }

    let effects = db.simulate_network_effect(nodes[0], 1_000_000);

    assert!(!effects.is_empty());
    assert!(effects.iter().any(|(id, _)| *id == nodes[1]));
}

#[test]
fn test_relationship_discovery() {
    let mut db = Database::new();

    // Two disjoint partnerships: every cross pair bridges different
    // parts of the network, so complementarity is high.
    let a = db.add_node("{\"type\":\"investor\"}".to_string()).unwrap();
    let b = db.add_node("{\"type\":\"startup\"}".to_string()).unwrap();
    let c = db.add_node("{\"type\":\"investor\"}".to_string()).unwrap();
    let d = db.add_node("{\"type\":\"startup\"}".to_string()).unwrap();

    db.connect_nodes(vec![a, b], "funding".to_string(), 500_000).unwrap();
    db.connect_nodes(vec![c, d], "funding".to_string(), 500_000).unwrap();

    let relationships = db.discover_relationships(5).unwrap();

    assert!(!relationships.is_empty());
    // Equal activations and fully disjoint neighbourhoods score
    // 0.3 * 1.0 + 0.7 * 1.0 = 1.0.
    assert_eq!(relationships[0].2, 1_000_000);
}

#[test]
fn test_custom_configuration() {
    let config = DatabaseConfig {
        data_dir: "./test_custom_data".to_string(),
        spike_threshold: 500_000,
        decay_rate: 950_000,
        refractory_period: 50,
        max_cascade_depth: 5,
        sync_interval: 30,
    };

    let mut db = Database::with_config(config.clone());

    let node_id = db.add_node("{\"test\":true}".to_string()).unwrap();

    let effects = db.simulate_network_effect(node_id, 600_000);

    assert!(effects.is_empty());
}

#[test]
fn test_hypergraph_direct_operations() {
    let mut graph = HyperGraph::new();
    let now: u64 = 1_000;

    let node1 = fresh_uuid();
    let node2 = fresh_uuid();

    graph.add_node(node1, "{\"name\":\"Node1\"}".to_string(), now).unwrap();
    graph.add_node(node2, "{\"name\":\"Node2\"}".to_string(), now).unwrap();

    assert_eq!(graph.node_count(), 2);

    let edge_id = fresh_uuid();
    graph
        .add_hyperedge(edge_id, vec![node1, node2], "test_relationship".to_string(), 700_000, now)
        .unwrap();

    assert_eq!(graph.edge_count(), 1);

    let neighbors = graph.get_neighbors(node1);
    assert_eq!(neighbors.len(), 1);
    assert_eq!(neighbors[0], node2);

    graph.update_node_activation(node1, 800_000, now).unwrap();
    let node = graph.get_node(node1).unwrap();
    assert_eq!(node.activation_level, 800_000);
    assert_eq!(node.spike_count, 1);

    graph.apply_decay(900_000);
    let node = graph.get_node(node1).unwrap();
    assert_eq!(node.activation_level, 720_000);
}

#[test]
fn test_error_handling() {
    let mut db = Database::new();

    let fake_node1 = fresh_uuid();
    let fake_node2 = fresh_uuid();

    let result = db.connect_nodes(vec![fake_node1, fake_node2], "fake_connection".to_string(), 500_000);

    assert!(result.is_err());

    let similarity_result = db.find_similar(fake_node1, 500_000);

    assert!(similarity_result.is_empty());
}
