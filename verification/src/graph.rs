//! A labelled graph: nodes that carry properties, found by their id, and a
//! list of directed, named edges between ids.

use crate::labels::LabelMap;
use vstd::prelude::*;

verus! {

/// A node: an id and the properties recorded for it.
pub struct Node {
    pub id: String,
    pub properties: LabelMap<String>,
}

impl Node {
    /// A node with the given id and no properties.
    pub fn new(id: String) -> (node: Node)
        ensures
            node.id == id,
            node.properties.well_formed(),
            node.properties@ == Map::<Seq<char>, String>::empty(),
    {
        Node { id, properties: LabelMap::new() }
    }

    /// Records `value` as the property `key`, in place of an earlier value.
    pub fn set_property(&mut self, key: String, value: String)
        requires
            old(self).properties.well_formed(),
        ensures
            final(self).id == old(self).id,
            final(self).properties.well_formed(),
            final(self).properties@ == old(self).properties@.insert(key@, value),
    {
        self.properties.insert(key, value);
    }

    /// The value of the property `key`, if it was recorded.
    pub fn property(&self, key: &str) -> (r: Option<&String>)
        ensures
            match r {
                Some(v) => self.properties@.contains_key(key@) && *v == self.properties@[key@],
                None => !self.properties@.contains_key(key@),
            },
    {
        self.properties.get(key)
    }
}

/// An edge: the ids of its two ends and the name of the relation.
pub struct Edge {
    pub source: String,
    pub target: String,
    pub relation: String,
}

/// What a graph holds: its nodes by the characters of their id, and its edges
/// in the order in which they were added.
pub struct GraphModel {
    pub nodes: Map<Seq<char>, Node>,
    pub edges: Seq<Edge>,
}

/// A graph of nodes found by id and a list of edges. Edges are kept as given:
/// nothing asks that their ends are nodes of the graph.
pub struct KnowledgeGraph {
    nodes: LabelMap<Node>,
    edges: Vec<Edge>,
}

impl View for KnowledgeGraph {
    type V = GraphModel;

    closed spec fn view(&self) -> GraphModel {
        GraphModel { nodes: self.nodes@, edges: self.edges@ }
    }
}

impl KnowledgeGraph {
    /// The ids of the nodes in the order in which they were first added.
    pub closed spec fn ids(&self) -> Seq<Seq<char>> {
        self.nodes.labels()
    }

    /// No id is listed twice, and the ids listed are those of the nodes.
    pub open spec fn well_formed(&self) -> bool {
        &&& self.ids().no_duplicates()
        &&& forall|k: Seq<char>| self@.nodes.contains_key(k) <==> self.ids().contains(k)
    }

    /// The graph without nodes or edges.
    pub fn new() -> (graph: KnowledgeGraph)
        ensures
            graph.well_formed(),
            graph@.nodes == Map::<Seq<char>, Node>::empty(),
            graph@.edges == Seq::<Edge>::empty(),
            graph.ids() == Seq::<Seq<char>>::empty(),
    {
        KnowledgeGraph { nodes: LabelMap::new(), edges: Vec::new() }
    }

    /// Puts `node` into the graph under its id, in place of an earlier node
    /// with the same id.
    pub fn add_node(&mut self, node: Node)
        requires
            old(self).well_formed(),
        ensures
            final(self).well_formed(),
            final(self)@.nodes == old(self)@.nodes.insert(node.id@, node),
            final(self)@.edges == old(self)@.edges,
            final(self).ids() == if old(self)@.nodes.contains_key(node.id@) {
                old(self).ids()
            } else {
                old(self).ids().push(node.id@)
            },
    {
        let id = node.id.clone();
        self.nodes.insert(id, node);
    }

    /// Appends `edge` to the edges.
    pub fn add_edge(&mut self, edge: Edge)
        ensures
            final(self)@.edges == old(self)@.edges.push(edge),
            final(self)@.nodes == old(self)@.nodes,
            final(self).ids() == old(self).ids(),
    {
        self.edges.push(edge);
    }

    /// The node with the id `node_id`, if the graph has one.
    pub fn get_node(&self, node_id: &str) -> (r: Option<&Node>)
        ensures
            match r {
                Some(node) => self@.nodes.contains_key(node_id@) && *node == self@.nodes[node_id@],
                None => !self@.nodes.contains_key(node_id@),
            },
    {
        self.nodes.get(node_id)
    }

    /// The number of nodes.
    pub fn node_count(&self) -> (n: usize)
        ensures
            n == self.ids().len(),
    {
        self.nodes.len()
    }

    /// The id at position `i` in the order in which the nodes were first
    /// added.
    pub fn node_id_at(&self, i: usize) -> (r: Option<&String>)
        ensures
            match r {
                Some(id) => i < self.ids().len() && id@ == self.ids()[i as int],
                None => i >= self.ids().len(),
            },
    {
        self.nodes.label_at(i)
    }

    /// The edges in the order in which they were added.
    pub fn edges(&self) -> (r: &Vec<Edge>)
        ensures
            r@ == self@.edges,
    {
        &self.edges
    }
}

} // verus!
