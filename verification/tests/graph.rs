use qft_lab::graph::{Edge, KnowledgeGraph, Node};
use qft_lab::labels::LabelMap;

fn node(id: &str, properties: &[(&str, &str)]) -> Node {
    let mut node = Node::new(id.to_string());
    for (key, value) in properties {
        node.set_property(key.to_string(), value.to_string());
    }
    node
}

fn edge(source: &str, target: &str, relation: &str) -> Edge {
    Edge { source: source.to_string(), target: target.to_string(), relation: relation.to_string() }
}

fn ids(graph: &KnowledgeGraph) -> Vec<String> {
    (0..graph.node_count()).map(|i| graph.node_id_at(i).unwrap().clone()).collect()
}

#[test]
fn new_graph_is_empty() {
    let graph = KnowledgeGraph::new();
    assert_eq!(graph.node_count(), 0);
    assert!(graph.edges().is_empty());
    assert!(graph.get_node("person1").is_none());
    assert!(graph.node_id_at(0).is_none());
}

#[test]
fn nodes_are_found_by_id() {
    let mut graph = KnowledgeGraph::new();
    graph.add_node(node("person1", &[("name", "Alice"), ("age", "30")]));
    graph.add_node(node("city1", &[("name", "London")]));
    graph.add_node(node("company1", &[("name", "Acme Corp")]));
    assert_eq!(graph.node_count(), 3);
    let found = graph.get_node("person1").unwrap();
    assert_eq!(found.id, "person1");
    assert_eq!(found.property("name"), Some(&"Alice".to_string()));
    assert_eq!(found.property("age"), Some(&"30".to_string()));
    assert_eq!(found.property("height"), None);
    assert_eq!(graph.get_node("city1").unwrap().property("name"), Some(&"London".to_string()));
    assert!(graph.get_node("city2").is_none());
    assert!(graph.get_node("").is_none());
}

#[test]
fn a_node_with_a_known_id_replaces_the_old_one() {
    let mut graph = KnowledgeGraph::new();
    graph.add_node(node("a", &[("colour", "red")]));
    graph.add_node(node("b", &[]));
    graph.add_node(node("a", &[("shape", "round")]));
    assert_eq!(graph.node_count(), 2);
    assert_eq!(ids(&graph), vec!["a".to_string(), "b".to_string()]);
    let found = graph.get_node("a").unwrap();
    assert_eq!(found.property("colour"), None);
    assert_eq!(found.property("shape"), Some(&"round".to_string()));
}

#[test]
fn ids_keep_the_order_of_first_insertion() {
    let mut graph = KnowledgeGraph::new();
    for id in ["person1", "city1", "company1", "city1", "zebra", "person1"] {
        graph.add_node(node(id, &[]));
    }
    assert_eq!(ids(&graph), vec!["person1", "city1", "company1", "zebra"]);
    assert!(graph.node_id_at(4).is_none());
}

#[test]
fn edges_are_kept_in_order() {
    let mut graph = KnowledgeGraph::new();
    graph.add_node(node("person1", &[]));
    graph.add_edge(edge("person1", "city1", "lives_in"));
    graph.add_edge(edge("person1", "company1", "works_at"));
    graph.add_edge(edge("person1", "city1", "lives_in"));
    let edges = graph.edges();
    assert_eq!(edges.len(), 3);
    assert_eq!(edges[0].source, "person1");
    assert_eq!(edges[0].target, "city1");
    assert_eq!(edges[0].relation, "lives_in");
    assert_eq!(edges[1].target, "company1");
    assert_eq!(edges[1].relation, "works_at");
    assert_eq!(edges[2].relation, "lives_in");
    assert_eq!(graph.node_count(), 1);
}

#[test]
fn edges_may_name_unknown_nodes() {
    let mut graph = KnowledgeGraph::new();
    graph.add_edge(edge("nobody", "nowhere", "visits"));
    assert_eq!(graph.edges().len(), 1);
    assert_eq!(graph.node_count(), 0);
    assert!(graph.get_node("nobody").is_none());
}

#[test]
fn a_property_set_twice_keeps_the_last_value() {
    let mut n = Node::new("x".to_string());
    n.set_property("k".to_string(), "1".to_string());
    n.set_property("j".to_string(), "2".to_string());
    n.set_property("k".to_string(), "3".to_string());
    assert_eq!(n.property("k"), Some(&"3".to_string()));
    assert_eq!(n.property("j"), Some(&"2".to_string()));
    assert_eq!(n.properties.len(), 2);
    assert_eq!(n.properties.label_at(0), Some(&"k".to_string()));
    assert_eq!(n.properties.label_at(1), Some(&"j".to_string()));
    assert_eq!(n.properties.label_at(2), None);
}

#[test]
fn label_map_inserts_and_finds() {
    let mut map: LabelMap<u32> = LabelMap::new();
    assert_eq!(map.len(), 0);
    assert!(!map.contains_key("one"));
    map.insert("one".to_string(), 1);
    map.insert("two".to_string(), 2);
    map.insert("one".to_string(), 11);
    assert_eq!(map.len(), 2);
    assert!(map.contains_key("one"));
    assert!(!map.contains_key("three"));
    assert_eq!(map.get("one"), Some(&11));
    assert_eq!(map.get("two"), Some(&2));
    assert_eq!(map.get("three"), None);
    assert_eq!(map.label_at(0).map(|s| s.as_str()), Some("one"));
    assert_eq!(map.label_at(1).map(|s| s.as_str()), Some("two"));
}
