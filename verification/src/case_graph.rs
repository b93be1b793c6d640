//! Case graphs: the events and objects of one case, and the edges between them.
use crate::case_stats::EdgeType;
use vstd::prelude::*;

verus! {

/// An event of a case.
pub struct Event {
    pub id: usize,
    pub event_type: String,
}

/// An object of a case.
pub struct Object {
    pub id: usize,
    pub object_type: String,
}

/// A node of a case graph.
pub enum Node {
    EventNode(Event),
    ObjectNode(Object),
}

/// An edge of a case graph.
pub struct Edge {
    pub id: usize,
    pub from: usize,
    pub to: usize,
    pub edge_type: EdgeType,
}

/// The events and objects of a case, and the edges between them, in the order added.
pub struct CaseGraph {
    pub nodes: Vec<Node>,
    pub edges: Vec<Edge>,
}

/// A node as plain values: whether it is an event, its id, and its type.
pub struct NodeView {
    pub is_event: bool,
    pub id: usize,
    pub node_type: Seq<char>,
}

/// An edge as plain values.
pub struct EdgeView {
    pub id: usize,
    pub from: usize,
    pub to: usize,
    pub edge_type: EdgeType,
}

/// A case graph as plain values.
pub struct CaseGraphView {
    pub nodes: Seq<NodeView>,
    pub edges: Seq<EdgeView>,
}

impl View for Node {
    type V = NodeView;

    open spec fn view(&self) -> NodeView {
        match self {
            Node::EventNode(e) => NodeView { is_event: true, id: e.id, node_type: e.event_type@ },
            Node::ObjectNode(o) => NodeView { is_event: false, id: o.id, node_type: o.object_type@ },
        }
    }
}

impl View for Edge {
    type V = EdgeView;

    open spec fn view(&self) -> EdgeView {
        EdgeView { id: self.id, from: self.from, to: self.to, edge_type: self.edge_type }
    }
}

impl View for CaseGraph {
    type V = CaseGraphView;

    open spec fn view(&self) -> CaseGraphView {
        CaseGraphView {
            nodes: self.nodes@.map_values(|n: Node| n@),
            edges: self.edges@.map_values(|e: Edge| e@),
        }
    }
}

impl Edge {
    pub fn new(id: usize, from: usize, to: usize, edge_type: EdgeType) -> (e: Self)
        ensures
            e@ == (EdgeView { id, from, to, edge_type }),
    {
        Edge { id, from, to, edge_type }
    }
}

impl Node {
    /// A copy of the node.
    pub fn copy(&self) -> (r: Node)
        ensures
            r@ == self@,
    {
        match self {
            Node::EventNode(e) => Node::EventNode(Event { id: e.id, event_type: e.event_type.clone() }),
            Node::ObjectNode(o) => Node::ObjectNode(Object { id: o.id, object_type: o.object_type.clone() }),
        }
    }
}

impl CaseGraph {
    pub fn new() -> (g: Self)
        ensures
            g@.nodes.len() == 0,
            g@.edges.len() == 0,
    {
        CaseGraph { nodes: Vec::new(), edges: Vec::new() }
    }

    pub fn add_node(&mut self, node: Node)
        ensures
            final(self)@.nodes == old(self)@.nodes.push(node@),
            final(self)@.edges == old(self)@.edges,
    {
        self.nodes.push(node);
        proof {
            assert(self@.nodes =~= old(self)@.nodes.push(node@));
        }
    }

    pub fn add_edge(&mut self, edge: Edge)
        ensures
            final(self)@.edges == old(self)@.edges.push(edge@),
            final(self)@.nodes == old(self)@.nodes,
    {
        self.edges.push(edge);
        proof {
            assert(self@.edges =~= old(self)@.edges.push(edge@));
        }
    }

    /// A copy of the graph.
    pub fn copy(&self) -> (r: CaseGraph)
        ensures
            r@ == self@,
    {
        let mut nodes: Vec<Node> = Vec::new();
        let mut i: usize = 0;
        while i < self.nodes.len()
            invariant
                i <= self.nodes@.len(),
                nodes@.map_values(|n: Node| n@) == self.nodes@.take(i as int).map_values(|n: Node| n@),
            decreases self.nodes.len() - i,
        {
            let ghost before = nodes@;
            let c = self.nodes[i].copy();
            nodes.push(c);
            proof {
                assert(nodes@ == before.push(c));
                assert(before.map_values(|n: Node| n@) == self.nodes@.take(i as int).map_values(|n: Node| n@));
                assert(nodes@.map_values(|n: Node| n@) =~= before.map_values(|n: Node| n@).push(c@));
                assert(self.nodes@.take(i + 1) =~= self.nodes@.take(i as int).push(self.nodes@[i as int]));
                assert(nodes@.map_values(|n: Node| n@) =~= self.nodes@.take(i + 1).map_values(|n: Node| n@));
            }
            i += 1;
        }
        let mut edges: Vec<Edge> = Vec::new();
        let mut j: usize = 0;
        while j < self.edges.len()
            invariant
                j <= self.edges@.len(),
                edges@.map_values(|e: Edge| e@) == self.edges@.take(j as int).map_values(|e: Edge| e@),
            decreases self.edges.len() - j,
        {
            let e = &self.edges[j];
            let ghost before = edges@;
            let c = Edge { id: e.id, from: e.from, to: e.to, edge_type: e.edge_type };
            edges.push(c);
            proof {
                assert(edges@ == before.push(c));
                assert(before.map_values(|e: Edge| e@) == self.edges@.take(j as int).map_values(|e: Edge| e@));
                assert(edges@.map_values(|e: Edge| e@) =~= before.map_values(|e: Edge| e@).push(c@));
                assert(self.edges@.take(j + 1) =~= self.edges@.take(j as int).push(self.edges@[j as int]));
                assert(edges@.map_values(|e: Edge| e@) =~= self.edges@.take(j + 1).map_values(|e: Edge| e@));
            }
            j += 1;
        }
        proof {
            assert(self.nodes@.take(i as int) =~= self.nodes@);
            assert(self.edges@.take(j as int) =~= self.edges@);
        }
        CaseGraph { nodes, edges }
    }
}

} // verus!
