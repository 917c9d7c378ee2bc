//! The topology graph: nodes for files, sections and tasks, joined by typed edges.

use vstd::prelude::*;

verus! {

#[derive(Debug, Clone, Copy, PartialEq, Eq, Structural, PartialOrd, Ord)]
pub enum NodeKind {
    Directory,
    File,
    Section,
    Task,
}

#[derive(Debug, Clone, Copy, PartialEq, Eq, Structural, PartialOrd, Ord)]
pub enum EdgeKind {
    Contains,
    References,
    Sequence,
}

/// What the logic reads of a node's metadata: a heading's level, a task's status and
/// its numeric stable id.
#[derive(Debug)]
pub struct Metadata {
    pub level: Option<u64>,
    pub status: Option<String>,
    pub stable_id: Option<String>,
}

#[derive(Debug)]
pub struct Node {
    pub id: String,
    pub kind: NodeKind,
    pub source: String,
    pub label: String,
    pub metadata: Option<Metadata>,
}

#[derive(Debug)]
pub struct Edge {
    pub source: String,
    pub target: String,
    pub kind: EdgeKind,
}

#[derive(Debug)]
pub struct Graph {
    pub nodes: Vec<Node>,
    pub edges: Vec<Edge>,
}

pub struct MetaView {
    pub level: Option<u64>,
    pub status: Option<Seq<char>>,
    pub stable_id: Option<Seq<char>>,
}

pub struct NodeView {
    pub id: Seq<char>,
    pub kind: NodeKind,
    pub source: Seq<char>,
    pub label: Seq<char>,
    pub metadata: Option<MetaView>,
}

pub struct EdgeView {
    pub source: Seq<char>,
    pub target: Seq<char>,
    pub kind: EdgeKind,
}

pub struct GraphView {
    pub nodes: Seq<NodeView>,
    pub edges: Seq<EdgeView>,
}

pub open spec fn opt_str_view(o: Option<String>) -> Option<Seq<char>> {
    match o {
        Some(s) => Some(s@),
        None => None,
    }
}

impl View for Metadata {
    type V = MetaView;

    open spec fn view(&self) -> MetaView {
        MetaView {
            level: self.level,
            status: opt_str_view(self.status),
            stable_id: opt_str_view(self.stable_id),
        }
    }
}

pub open spec fn opt_meta_view(o: Option<Metadata>) -> Option<MetaView> {
    match o {
        Some(m) => Some(m@),
        None => None,
    }
}

impl View for Node {
    type V = NodeView;

    open spec fn view(&self) -> NodeView {
        NodeView {
            id: self.id@,
            kind: self.kind,
            source: self.source@,
            label: self.label@,
            metadata: opt_meta_view(self.metadata),
        }
    }
}

impl View for Edge {
    type V = EdgeView;

    open spec fn view(&self) -> EdgeView {
        EdgeView { source: self.source@, target: self.target@, kind: self.kind }
    }
}

pub open spec fn node_views(v: Seq<Node>) -> Seq<NodeView> {
    v.map_values(|n: Node| n@)
}

pub open spec fn edge_views(v: Seq<Edge>) -> Seq<EdgeView> {
    v.map_values(|e: Edge| e@)
}

impl View for Graph {
    type V = GraphView;

    open spec fn view(&self) -> GraphView {
        GraphView { nodes: node_views(self.nodes@), edges: edge_views(self.edges@) }
    }
}

/// The status recorded in a node's metadata.
pub open spec fn status_of(n: NodeView) -> Option<Seq<char>> {
    match n.metadata {
        Some(m) => m.status,
        None => None,
    }
}

/// The numeric stable id recorded in a node's metadata.
pub open spec fn stable_id_of(n: NodeView) -> Option<Seq<char>> {
    match n.metadata {
        Some(m) => m.stable_id,
        None => None,
    }
}

/// The heading level recorded in a node's metadata.
pub open spec fn level_of(n: NodeView) -> Option<u64> {
    match n.metadata {
        Some(m) => m.level,
        None => None,
    }
}

pub fn copy_opt_string(o: &Option<String>) -> (r: Option<String>)
    ensures
        opt_str_view(r) == opt_str_view(*o),
{
    match o {
        Some(s) => Some(s.clone()),
        None => None,
    }
}

impl Metadata {
    pub fn duplicate(&self) -> (r: Metadata)
        ensures
            r@ == self@,
    {
        Metadata {
            level: self.level,
            status: copy_opt_string(&self.status),
            stable_id: copy_opt_string(&self.stable_id),
        }
    }
}

impl Node {
    pub fn duplicate(&self) -> (r: Node)
        ensures
            r@ == self@,
    {
        let metadata = match &self.metadata {
            Some(m) => Some(m.duplicate()),
            None => None,
        };
        Node {
            id: self.id.clone(),
            kind: self.kind,
            source: self.source.clone(),
            label: self.label.clone(),
            metadata,
        }
    }

    /// The status recorded in the node's metadata.
    pub fn status(&self) -> (r: Option<&String>)
        ensures
            opt_str_view(match r { Some(s) => Some(*s), None => None }) == status_of(self@),
    {
        match &self.metadata {
            Some(m) => match &m.status {
                Some(s) => Some(s),
                None => None,
            },
            None => None,
        }
    }

    /// The numeric stable id recorded in the node's metadata.
    pub fn stable_id(&self) -> (r: Option<&String>)
        ensures
            opt_str_view(match r { Some(s) => Some(*s), None => None }) == stable_id_of(self@),
    {
        match &self.metadata {
            Some(m) => match &m.stable_id {
                Some(s) => Some(s),
                None => None,
            },
            None => None,
        }
    }

    /// The heading level recorded in the node's metadata.
    pub fn level(&self) -> (r: Option<u64>)
        ensures
            r == level_of(self@),
    {
        match &self.metadata {
            Some(m) => m.level,
            None => None,
        }
    }
}

impl Edge {
    pub fn duplicate(&self) -> (r: Edge)
        ensures
            r@ == self@,
    {
        Edge { source: self.source.clone(), target: self.target.clone(), kind: self.kind }
    }
}

impl Graph {
    pub fn new() -> (g: Graph)
        ensures
            g@.nodes.len() == 0,
            g@.edges.len() == 0,
    {
        Graph { nodes: Vec::new(), edges: Vec::new() }
    }

    /// Appends the nodes and edges of `other`, in order.
    pub fn add(&mut self, other: Graph)
        ensures
            final(self)@.nodes == old(self)@.nodes + other@.nodes,
            final(self)@.edges == old(self)@.edges + other@.edges,
    {
        let mut other = other;
        let ghost on = other@.nodes;
        let ghost oe = other@.edges;
        let ghost sn = self@.nodes;
        let ghost se = self@.edges;
        self.nodes.append(&mut other.nodes);
        self.edges.append(&mut other.edges);
        assert(self@.nodes =~= sn + on);
        assert(self@.edges =~= se + oe);
    }
}

} // verus!
