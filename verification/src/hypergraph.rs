//! The hypergraph store: entities, hyperedges and the two adjacency
//! indices, with the invariants that every public operation preserves.
//!
//! Nodes and edges are kept in insertion order.  The adjacency indices
//! run parallel to them: `node_to_edges[i]` lists the edges incident to
//! `nodes[i]`, and `edge_to_nodes[j]` repeats the participant list of
//! `edges[j]` for traversal locality.

use vstd::prelude::*;

use crate::errors::GraphError;
use crate::fixed::{ONE, MAX_LEVEL, sat_add, sat_add64};

verus! {

/// Activations above this level count as a spike (0.7).
pub const SPIKE_THRESHOLD: u64 = 700_000;

/// The conductance multiplier a new edge starts with (0.99).
pub const DEFAULT_WEIGHT_DECAY: u64 = 990_000;

/// The store holds fewer than 2^30 nodes and 2^30 edges, so that degree
/// sums and cascade totals fit in 64 bits.
pub const MAX_COUNT: usize = 0x4000_0000;

/// True when no element of `s` occurs twice.
pub open spec fn distinct_seq(s: Seq<u128>) -> bool {
    forall|i: int, j: int| 0 <= i < j < s.len() ==> s[i] != s[j]
}

/// True when `v` holds `x`.
pub fn ids_contain(v: &Vec<u128>, x: u128) -> (r: bool)
    ensures
        r == v@.contains(x),
{
    let mut i: usize = 0;
    while i < v.len()
        invariant
            i <= v@.len(),
            forall|k: int| 0 <= k < i ==> v@[k] != x,
        decreases v@.len() - i,
    {
        if v[i] == x {
            return true;
        }
        i += 1;
    }
    false
}

/// A copy of an id list.
pub fn copy_ids(v: &Vec<u128>) -> (r: Vec<u128>)
    ensures
        r@ == v@,
{
    let mut r: Vec<u128> = Vec::new();
    let mut i: usize = 0;
    while i < v.len()
        invariant
            i <= v@.len(),
            r@ == v@.take(i as int),
        decreases v@.len() - i,
    {
        r.push(v[i]);
        proof {
            assert(r@ =~= v@.take(i + 1));
        }
        i += 1;
    }
    proof {
        assert(v@.take(v@.len() as int) =~= v@);
    }
    r
}

/// True when two id lists are equal element for element.
pub fn eq_ids(v1: &Vec<u128>, v2: &Vec<u128>) -> (r: bool)
    ensures
        r == (v1@ == v2@),
{
    if v1.len() != v2.len() {
        return false;
    }
    let mut i: usize = 0;
    while i < v1.len()
        invariant
            i <= v1@.len(),
            v1@.len() == v2@.len(),
            forall|k: int| 0 <= k < i ==> v1@[k] == v2@[k],
        decreases v1@.len() - i,
    {
        if v1[i] != v2[i] {
            return false;
        }
        i += 1;
    }
    proof {
        assert(v1@ =~= v2@);
    }
    true
}

/// One entry of a node's property mapping.
#[derive(Debug, Clone)]
pub struct PropEntry {
    pub key: String,
    pub value: String,
}

/// A node of the hypergraph: an entity with neural state attached.
#[derive(Debug, Clone)]
pub struct HyperNode {
    pub id: u128,
    /// Free-form payload; the store never reads it.
    pub data: String,
    pub created_at: u64,
    pub updated_at: u64,
    /// Fixed-point activation level, at most [`MAX_LEVEL`].
    pub activation_level: u64,
    pub last_spike_time: Option<u64>,
    pub spike_count: u64,
    pub node_type: String,
    pub tags: Vec<String>,
    pub properties: Vec<PropEntry>,
}

impl HyperNode {
    /// The scalar bound every stored node obeys.
    pub open spec fn wf(self) -> bool {
        self.activation_level <= MAX_LEVEL
    }
}

/// The shape a hyperedge declares; traversal ignores it.
#[derive(Debug, Clone)]
pub enum EdgeType {
    /// Bidirectional relationship.
    Symmetric,
    /// One-way influence.
    Directional { from: u128, to: Vec<u128> },
    /// One central node, many peripheral.
    Hub { center: u128, periphery: Vec<u128> },
    /// Sequential dependencies.
    Chain,
}

/// A hyperedge joining one or more nodes under a named relationship.
#[derive(Debug, Clone)]
pub struct HyperEdge {
    pub id: u128,
    pub node_ids: Vec<u128>,
    pub relationship: String,
    /// Fixed-point strength, at most [`ONE`].
    pub strength: u64,
    pub created_at: u64,
    pub updated_at: u64,
    /// Fixed-point conductance, at most [`ONE`].
    pub conductance: u64,
    pub last_activation: Option<u64>,
    pub activation_count: u64,
    pub edge_type: EdgeType,
    /// Per-edge decay multiplier, at most [`ONE`].
    pub weight_decay: u64,
    pub properties: Vec<PropEntry>,
}

impl HyperEdge {
    /// The scalar bounds every stored edge obeys.
    pub open spec fn wf(self) -> bool {
        &&& self.strength <= ONE
        &&& self.conductance <= ONE
        &&& self.weight_decay <= ONE
    }
}

/// The hypergraph store.
#[derive(Debug, Clone)]
pub struct HyperGraph {
    pub nodes: Vec<HyperNode>,
    pub edges: Vec<HyperEdge>,
    pub node_to_edges: Vec<Vec<u128>>,
    pub edge_to_nodes: Vec<Vec<u128>>,
}

impl HyperGraph {
    /// The stored nodes, in insertion order.
    pub open spec fn nodes_seq(self) -> Seq<HyperNode> {
        self.nodes@
    }

    /// The stored edges, in insertion order.
    pub open spec fn edges_seq(self) -> Seq<HyperEdge> {
        self.edges@
    }

    /// True when a node with this id is stored.
    pub open spec fn has_node(self, id: u128) -> bool {
        exists|i: int| 0 <= i < self.nodes@.len() && (#[trigger] self.nodes@[i]).id == id
    }

    /// True when an edge with this id is stored.
    pub open spec fn has_edge(self, id: u128) -> bool {
        exists|j: int| 0 <= j < self.edges@.len() && (#[trigger] self.edges@[j]).id == id
    }

    /// The position of the node with this id.
    pub open spec fn node_index_of(self, id: u128) -> int {
        choose|i: int| 0 <= i < self.nodes@.len() && (#[trigger] self.nodes@[i]).id == id
    }

    /// The position of the edge with this id.
    pub open spec fn edge_index_of(self, id: u128) -> int {
        choose|j: int| 0 <= j < self.edges@.len() && (#[trigger] self.edges@[j]).id == id
    }

    /// The stored node with this id.
    pub open spec fn node_at(self, id: u128) -> HyperNode {
        self.nodes@[self.node_index_of(id)]
    }

    /// The stored edge with this id.
    pub open spec fn edge_at(self, id: u128) -> HyperEdge {
        self.edges@[self.edge_index_of(id)]
    }

    /// The edge ids incident to this node, in first-insertion order.
    pub open spec fn incident_edges(self, id: u128) -> Seq<u128> {
        if self.has_node(id) {
            self.node_to_edges@[self.node_index_of(id)]@
        } else {
            Seq::empty()
        }
    }

    /// True when the stored edge `e` lists `nid` among its participants.
    pub open spec fn edge_links(self, e: u128, nid: u128) -> bool {
        exists|j: int|
            0 <= j < self.edges@.len() && (#[trigger] self.edges@[j]).id == e
                && self.edges@[j].node_ids@.contains(nid)
    }

    /// The invariants of the store; every public operation preserves
    /// them.  Clauses five and six are the adjacency-consistency law:
    /// a node's incident list holds an edge id exactly when that edge
    /// lists the node, and every participant of a stored edge is a
    /// stored node.
    pub open spec fn wf(self) -> bool {
        &&& self.nodes@.len() <= MAX_COUNT
        &&& self.edges@.len() <= MAX_COUNT
        &&& self.node_to_edges@.len() == self.nodes@.len()
        &&& self.edge_to_nodes@.len() == self.edges@.len()
        &&& forall|i: int, j: int|
            0 <= i < j < self.nodes@.len() ==> (#[trigger] self.nodes@[i]).id != (
            #[trigger] self.nodes@[j]).id
        &&& forall|i: int, j: int|
            0 <= i < j < self.edges@.len() ==> (#[trigger] self.edges@[i]).id != (
            #[trigger] self.edges@[j]).id
        &&& forall|i: int| 0 <= i < self.nodes@.len() ==> (#[trigger] self.nodes@[i]).wf()
        &&& forall|j: int| 0 <= j < self.edges@.len() ==> (#[trigger] self.edges@[j]).wf()
        &&& forall|j: int|
            0 <= j < self.edges@.len() ==> (#[trigger] self.edge_to_nodes@[j])@
                == self.edges@[j].node_ids@
        &&& forall|j: int, k: int|
            0 <= j < self.edges@.len() && 0 <= k < self.edges@[j].node_ids@.len()
                ==> self.has_node(#[trigger] self.edges@[j].node_ids@[k])
        &&& forall|i: int|
            0 <= i < self.nodes@.len() ==> distinct_seq((#[trigger] self.node_to_edges@[i])@)
        &&& forall|i: int|
            0 <= i < self.nodes@.len() ==> (#[trigger] self.node_to_edges@[i])@.len()
                <= self.edges@.len()
        &&& forall|i: int, e: u128|
            #![trigger self.node_to_edges@[i]@.contains(e)]
            #![trigger self.edge_links(e, self.nodes@[i].id)]
            0 <= i < self.nodes@.len() ==> (self.node_to_edges@[i]@.contains(e)
                <==> self.edge_links(e, self.nodes@[i].id))
    }

    /// The chosen node index is the one place this id occurs.
    pub proof fn lemma_node_index(self, id: u128)
        requires
            self.wf(),
            self.has_node(id),
        ensures
            0 <= self.node_index_of(id) < self.nodes@.len(),
            self.nodes@[self.node_index_of(id)].id == id,
            forall|i: int|
                0 <= i < self.nodes@.len() && (#[trigger] self.nodes@[i]).id == id ==> i
                    == self.node_index_of(id),
    {
        let w = self.node_index_of(id);
        assert(0 <= w < self.nodes@.len() && self.nodes@[w].id == id);
        assert forall|i: int|
            0 <= i < self.nodes@.len() && (#[trigger] self.nodes@[i]).id == id implies i == w by {
            if i < w {
                assert(self.nodes@[i].id != self.nodes@[w].id);
            } else if w < i {
                assert(self.nodes@[w].id != self.nodes@[i].id);
            }
        }
    }

    /// The chosen edge index is the one place this id occurs.
    pub proof fn lemma_edge_index(self, id: u128)
        requires
            self.wf(),
            self.has_edge(id),
        ensures
            0 <= self.edge_index_of(id) < self.edges@.len(),
            self.edges@[self.edge_index_of(id)].id == id,
            forall|j: int|
                0 <= j < self.edges@.len() && (#[trigger] self.edges@[j]).id == id ==> j
                    == self.edge_index_of(id),
    {
        let w = self.edge_index_of(id);
        assert(0 <= w < self.edges@.len() && self.edges@[w].id == id);
        assert forall|j: int|
            0 <= j < self.edges@.len() && (#[trigger] self.edges@[j]).id == id implies j == w by {
            if j < w {
                assert(self.edges@[j].id != self.edges@[w].id);
            } else if w < j {
                assert(self.edges@[w].id != self.edges@[j].id);
            }
        }
    }

    /// An empty store.
    pub fn new() -> (g: HyperGraph)
        ensures
            g.wf(),
            g.nodes@.len() == 0,
            g.edges@.len() == 0,
    {
        HyperGraph {
            nodes: Vec::new(),
            edges: Vec::new(),
            node_to_edges: Vec::new(),
            edge_to_nodes: Vec::new(),
        }
    }

    /// How many nodes are stored.
    pub fn node_count(&self) -> (r: usize)
        ensures
            r == self.nodes@.len(),
    {
        self.nodes.len()
    }

    /// How many edges are stored.
    pub fn edge_count(&self) -> (r: usize)
        ensures
            r == self.edges@.len(),
    {
        self.edges.len()
    }

    /// The position of the node with this id, scanning from the front.
    fn find_node_index(&self, id: u128) -> (r: Option<usize>)
        ensures
            match r {
                Some(i) => i < self.nodes@.len() && self.nodes@[i as int].id == id && forall|k: int|
                    0 <= k < i ==> (#[trigger] self.nodes@[k]).id != id,
                None => !self.has_node(id),
            },
    {
        let mut i: usize = 0;
        while i < self.nodes.len()
            invariant
                i <= self.nodes@.len(),
                forall|k: int| 0 <= k < i ==> (#[trigger] self.nodes@[k]).id != id,
            decreases self.nodes@.len() - i,
        {
            if self.nodes[i].id == id {
                return Some(i);
            }
            i += 1;
        }
        None
    }

    /// The position of the edge with this id, scanning from the front.
    fn find_edge_index(&self, id: u128) -> (r: Option<usize>)
        ensures
            match r {
                Some(j) => j < self.edges@.len() && self.edges@[j as int].id == id && forall|k: int|
                    0 <= k < j ==> (#[trigger] self.edges@[k]).id != id,
                None => !self.has_edge(id),
            },
    {
        let mut j: usize = 0;
        while j < self.edges.len()
            invariant
                j <= self.edges@.len(),
                forall|k: int| 0 <= k < j ==> (#[trigger] self.edges@[k]).id != id,
            decreases self.edges@.len() - j,
        {
            if self.edges[j].id == id {
                return Some(j);
            }
            j += 1;
        }
        None
    }

    /// Looks a node up by id.
    pub fn get_node(&self, id: u128) -> (r: Option<&HyperNode>)
        requires
            self.wf(),
        ensures
            match r {
                Some(n) => self.has_node(id) && *n == self.node_at(id),
                None => !self.has_node(id),
            },
    {
        match self.find_node_index(id) {
            Some(i) => {
                proof {
                    self.lemma_node_index(id);
                }
                Some(&self.nodes[i])
            },
            None => None,
        }
    }

    /// Looks an edge up by id.
    pub fn get_edge(&self, id: u128) -> (r: Option<&HyperEdge>)
        requires
            self.wf(),
        ensures
            match r {
                Some(e) => self.has_edge(id) && *e == self.edge_at(id),
                None => !self.has_edge(id),
            },
    {
        match self.find_edge_index(id) {
            Some(j) => {
                proof {
                    self.lemma_edge_index(id);
                }
                Some(&self.edges[j])
            },
            None => None,
        }
    }

    /// True of a node the store has just created.
    pub open spec fn is_fresh_node(n: HyperNode, id: u128, data: String, now_ms: u64) -> bool {
        &&& n.id == id
        &&& n.data == data
        &&& n.created_at == now_ms
        &&& n.updated_at == now_ms
        &&& n.activation_level == 0
        &&& n.last_spike_time is None
        &&& n.spike_count == 0
        &&& n.node_type@ == "generic"@
        &&& n.tags@.len() == 0
        &&& n.properties@.len() == 0
    }

    /// Creates a node with default neural fields and an empty incident
    /// list.  Rejects an id that is already present, without mutating.
    pub fn add_node(&mut self, id: u128, data: String, now_ms: u64) -> (r: Result<
        (),
        GraphError,
    >)
        requires
            old(self).wf(),
            old(self).nodes@.len() < MAX_COUNT,
        ensures
            final(self).wf(),
            match r {
                Ok(()) => {
                    &&& !old(self).has_node(id)
                    &&& final(self).nodes@.len() == old(self).nodes@.len() + 1
                    &&& forall|k: int|
                        0 <= k < old(self).nodes@.len() ==> final(self).nodes@[k] == old(
                            self,
                        ).nodes@[k]
                    &&& Self::is_fresh_node(final(self).nodes@.last(), id, data, now_ms)
                    &&& final(self).has_node(id)
                    &&& final(self).edges@ == old(self).edges@
                    &&& final(self).incident_edges(id).len() == 0
                },
                Err(GraphError::DuplicateId) => old(self).has_node(id) && *final(self) == *old(
                    self,
                ),
                Err(_) => false,
            },
    {
        if self.find_node_index(id).is_some() {
            return Err(GraphError::DuplicateId);
        }
        let node = HyperNode {
            id,
            data,
            created_at: now_ms,
            updated_at: now_ms,
            activation_level: 0,
            last_spike_time: None,
            spike_count: 0,
            node_type: "generic".to_owned(),
            tags: Vec::new(),
            properties: Vec::new(),
        };
        self.nodes.push(node);
        self.node_to_edges.push(Vec::new());
        proof {
            let gnew = *self;
            let gold = *old(self);
            let w = gnew.nodes@.len() - 1;
            assert(gnew.nodes@[w].id == id);
            assert(gnew.has_node(id));
            assert forall|i: int| 0 <= i < w implies (#[trigger] gnew.nodes@[i]).id != id by {
                if gnew.nodes@[i].id == id {
                    assert(gold.nodes@[i].id == id);
                    assert(gold.has_node(id));
                }
            }
            assert forall|x: u128| gold.has_node(x) implies gnew.has_node(x) by {
                let i = choose|i: int|
                    0 <= i < gold.nodes@.len() && (#[trigger] gold.nodes@[i]).id == x;
                assert(gnew.nodes@[i].id == x);
            }
            // Every pre-existing adjacency entry still matches, and the
            // new node's empty entry matches because no stored edge can
            // list an id that was absent from the store.
            assert forall|i: int, e: u128|
                #![trigger gnew.node_to_edges@[i]@.contains(e)]
                #![trigger gnew.edge_links(e, gnew.nodes@[i].id)]
                0 <= i < gnew.nodes@.len() implies (gnew.node_to_edges@[i]@.contains(e)
                <==> gnew.edge_links(e, gnew.nodes@[i].id)) by {
                if i < w {
                    assert(gnew.node_to_edges@[i] == gold.node_to_edges@[i]);
                    assert(gnew.nodes@[i] == gold.nodes@[i]);
                    assert(gold.node_to_edges@[i]@.contains(e) <==> gold.edge_links(
                        e,
                        gold.nodes@[i].id,
                    ));
                    assert(gnew.edge_links(e, gnew.nodes@[i].id) == gold.edge_links(
                        e,
                        gold.nodes@[i].id,
                    ));
                } else {
                    assert(gnew.node_to_edges@[i]@.len() == 0);
                    if gnew.edge_links(e, id) {
                        let j = choose|j: int|
                            0 <= j < gnew.edges@.len() && (#[trigger] gnew.edges@[j]).id == e
                                && gnew.edges@[j].node_ids@.contains(id);
                        let k = choose|k: int|
                            0 <= k < gold.edges@[j].node_ids@.len() && gold.edges@[j].node_ids@[k]
                                == id;
                        assert(gold.has_node(gold.edges@[j].node_ids@[k]));
                        assert(false);
                    }
                }
            }
        }
        Ok(())
    }

    /// True of an edge the store has just created.
    pub open spec fn is_fresh_edge(
        e: HyperEdge,
        id: u128,
        node_ids: Seq<u128>,
        relationship: String,
        strength: u64,
        now_ms: u64,
    ) -> bool {
        &&& e.id == id
        &&& e.node_ids@ == node_ids
        &&& e.relationship == relationship
        &&& e.strength == strength
        &&& e.conductance == strength
        &&& e.created_at == now_ms
        &&& e.updated_at == now_ms
        &&& e.last_activation is None
        &&& e.activation_count == 0
        &&& e.edge_type is Symmetric
        &&& e.weight_decay == DEFAULT_WEIGHT_DECAY
        &&& e.properties@.len() == 0
    }

    /// Inserts a hyperedge over existing nodes and records it in both
    /// adjacency indices.  Fails atomically: when a participant is
    /// unknown, or the id collides, nothing is mutated.  A node listed
    /// twice gains the edge id once.
    pub fn add_hyperedge(
        &mut self,
        id: u128,
        node_ids: Vec<u128>,
        relationship: String,
        strength: u64,
        now_ms: u64,
    ) -> (r: Result<(), GraphError>)
        requires
            old(self).wf(),
            old(self).edges@.len() < MAX_COUNT,
            node_ids@.len() >= 1,
            strength <= ONE,
        ensures
            final(self).wf(),
            match r {
                Ok(()) => {
                    &&& forall|k: int|
                        0 <= k < node_ids@.len() ==> old(self).has_node(#[trigger] node_ids@[k])
                    &&& !old(self).has_edge(id)
                    &&& final(self).nodes@ == old(self).nodes@
                    &&& final(self).edges@.len() == old(self).edges@.len() + 1
                    &&& forall|k: int|
                        0 <= k < old(self).edges@.len() ==> final(self).edges@[k] == old(
                            self,
                        ).edges@[k]
                    &&& Self::is_fresh_edge(
                        final(self).edges@.last(),
                        id,
                        node_ids@,
                        relationship,
                        strength,
                        now_ms,
                    )
                    &&& final(self).has_edge(id)
                    &&& final(self).node_to_edges@.len() == old(self).node_to_edges@.len()
                    &&& forall|i: int|
                        0 <= i < old(self).nodes@.len()
                            ==> (#[trigger] final(self).node_to_edges@[i])@ == (
                        if node_ids@.contains(old(self).nodes@[i].id) {
                            old(self).node_to_edges@[i]@.push(id)
                        } else {
                            old(self).node_to_edges@[i]@
                        })
                },
                Err(GraphError::UnknownNode) => {
                    &&& exists|k: int|
                        0 <= k < node_ids@.len() && !old(self).has_node(#[trigger] node_ids@[k])
                    &&& *final(self) == *old(self)
                },
                Err(GraphError::DuplicateId) => {
                    &&& forall|k: int|
                        0 <= k < node_ids@.len() ==> old(self).has_node(#[trigger] node_ids@[k])
                    &&& old(self).has_edge(id)
                    &&& *final(self) == *old(self)
                },
                Err(_) => false,
            },
    {
        // Validate every participant before mutating anything.
        let mut k: usize = 0;
        while k < node_ids.len()
            invariant
                k <= node_ids@.len(),
                *self == *old(self),
                self.wf(),
                forall|m: int| 0 <= m < k ==> self.has_node(#[trigger] node_ids@[m]),
            decreases node_ids@.len() - k,
        {
            if self.find_node_index(node_ids[k]).is_none() {
                return Err(GraphError::UnknownNode);
            }
            k += 1;
        }
        if self.find_edge_index(id).is_some() {
            return Err(GraphError::DuplicateId);
        }
        let participants = copy_ids(&node_ids);
        let edge = HyperEdge {
            id,
            node_ids,
            relationship,
            strength,
            created_at: now_ms,
            updated_at: now_ms,
            conductance: strength,
            last_activation: None,
            activation_count: 0,
            edge_type: EdgeType::Symmetric,
            weight_decay: DEFAULT_WEIGHT_DECAY,
            properties: Vec::new(),
        };
        let ghost gold = *old(self);
        let ghost gmid = *self;
        let ghost pids = edge.node_ids@;
        self.edges.push(edge);
        self.edge_to_nodes.push(participants);
        // Record the new edge id in the incident list of each distinct
        // participant.
        let ghost gpush = *self;
        let e2n_index = self.edge_to_nodes.len() - 1;
        let mut k: usize = 0;
        while k < self.edge_to_nodes[e2n_index].len()
            invariant
                self.nodes@ == gold.nodes@,
                self.edges@ == gpush.edges@,
                self.edge_to_nodes@ == gpush.edge_to_nodes@,
                gpush.edges@ == gold.edges@.push(gpush.edges@.last()),
                gpush.edge_to_nodes@ == gold.edge_to_nodes@.push(
                    gpush.edge_to_nodes@.last(),
                ),
                gpush.edges@.last().node_ids@ == pids,
                gpush.edge_to_nodes@.last()@ == pids,
                e2n_index == gold.edge_to_nodes@.len(),
                e2n_index < self.edge_to_nodes@.len(),
                k <= pids.len(),
                gold.wf(),
                !gold.has_edge(id),
                gpush.edges@.last().id == id,
                forall|m: int| 0 <= m < pids.len() ==> gold.has_node(#[trigger] pids[m]),
                self.node_to_edges@.len() == gold.node_to_edges@.len(),
                forall|i: int|
                    0 <= i < gold.nodes@.len() ==> (#[trigger] self.node_to_edges@[i])@ == (
                    if exists|m: int| 0 <= m < k && #[trigger] pids[m] == gold.nodes@[i].id {
                        gold.node_to_edges@[i]@.push(id)
                    } else {
                        gold.node_to_edges@[i]@
                    }),
            decreases pids.len() - k,
        {
            let pid = self.edge_to_nodes[e2n_index][k];
            let i = match self.find_node_index(pid) {
                Some(i) => i,
                None => {
                    proof {
                        let kk = k as int;
                        assert(gold.has_node(pids[kk]));
                        let w = choose|w: int|
                            0 <= w < gold.nodes@.len() && (#[trigger] gold.nodes@[w]).id
                                == pids[kk];
                        assert(self.nodes@[w].id == pid);
                        assert(false);
                    }
                    0
                },
            };
            proof {
                gold.lemma_node_index(pid);
                assert(i == gold.node_index_of(pid));
                assert(gold.nodes@[i as int].id == pid);
            }
            let ghost before = self.node_to_edges@;
            if !ids_contain(&self.node_to_edges[i], id) {
                let mut lst = self.node_to_edges.remove(i);
                lst.push(id);
                self.node_to_edges.insert(i, lst);
                proof {
                    assert(self.node_to_edges@ =~= before.update(
                        i as int,
                        self.node_to_edges@[i as int],
                    ));
                    // Not yet recorded here, so this node index had not
                    // been reached through an earlier participant.
                    assert(!(exists|m: int|
                        0 <= m < k && #[trigger] pids[m] == gold.nodes@[i as int].id)) by {
                        if exists|m: int|
                            0 <= m < k && #[trigger] pids[m] == gold.nodes@[i as int].id {
                            assert(before[i as int]@ == gold.node_to_edges@[i as int]@.push(id));
                            assert(before[i as int]@.contains(id)) by {
                                assert(before[i as int]@.last() == id);
                            }
                        }
                    }
                    assert(before[i as int]@ == gold.node_to_edges@[i as int]@);
                    assert(self.node_to_edges@[i as int]@ == gold.node_to_edges@[i as int]@.push(
                        id,
                    ));
                    assert forall|i2: int|
                        0 <= i2 < gold.nodes@.len() implies (#[trigger] self.node_to_edges@[i2])@
                        == (if exists|m: int|
                            0 <= m < k + 1 && #[trigger] pids[m] == gold.nodes@[i2].id {
                            gold.node_to_edges@[i2]@.push(id)
                        } else {
                            gold.node_to_edges@[i2]@
                        }) by {
                        if i2 == i {
                            assert(pids[k as int] == gold.nodes@[i2].id);
                        } else {
                            assert(self.node_to_edges@[i2] == before[i2]);
                            lemma_processed_same(gold, pids, i2, i as int, k as int);
                        }
                    }
                }
            } else {
                proof {
                    // Already recorded: this participant repeats an
                    // earlier one, and the index entry stays as it is.
                    assert(self.node_to_edges@[i as int]@.contains(id));
                    if !(exists|m: int|
                        0 <= m < k && #[trigger] pids[m] == gold.nodes@[i as int].id) {
                        assert(gold.node_to_edges@[i as int]@.contains(id));
                        assert(gold.edge_links(id, gold.nodes@[i as int].id));
                        let j = choose|j: int|
                            0 <= j < gold.edges@.len() && (#[trigger] gold.edges@[j]).id == id
                                && gold.edges@[j].node_ids@.contains(gold.nodes@[i as int].id);
                        assert(gold.has_edge(id));
                        assert(false);
                    }
                    assert forall|i2: int|
                        0 <= i2 < gold.nodes@.len() implies (#[trigger] self.node_to_edges@[i2])@
                        == (if exists|m: int|
                            0 <= m < k + 1 && #[trigger] pids[m] == gold.nodes@[i2].id {
                            gold.node_to_edges@[i2]@.push(id)
                        } else {
                            gold.node_to_edges@[i2]@
                        }) by {
                        if i2 == i {
                            assert(pids[k as int] == gold.nodes@[i2].id);
                        } else {
                            lemma_processed_same(gold, pids, i2, i as int, k as int);
                        }
                    }
                }
            }
            k += 1;
        }
        proof {
            assert forall|i: int|
                0 <= i < gold.nodes@.len() implies (#[trigger] self.node_to_edges@[i])@ == (
                if pids.contains(gold.nodes@[i].id) {
                    gold.node_to_edges@[i]@.push(id)
                } else {
                    gold.node_to_edges@[i]@
                }) by {
                assert((exists|m: int|
                    0 <= m < pids.len() && #[trigger] pids[m] == gold.nodes@[i].id)
                    == pids.contains(gold.nodes@[i].id));
            }
            self.lemma_add_hyperedge_wf(gold, pids, id);
        }
        Ok(())
    }

    /// Pushing one edge and extending the incident lists of exactly its
    /// participants keeps the store well formed.
    proof fn lemma_add_hyperedge_wf(self, gold: HyperGraph, pids: Seq<u128>, id: u128)
        requires
            gold.wf(),
            gold.edges@.len() < MAX_COUNT,
            !gold.has_edge(id),
            forall|m: int| 0 <= m < pids.len() ==> gold.has_node(#[trigger] pids[m]),
            self.nodes@ == gold.nodes@,
            self.edges@ == gold.edges@.push(self.edges@.last()),
            self.edges@.last().id == id,
            self.edges@.last().node_ids@ == pids,
            self.edges@.last().wf(),
            self.edge_to_nodes@ == gold.edge_to_nodes@.push(self.edge_to_nodes@.last()),
            self.edge_to_nodes@.last()@ == pids,
            self.node_to_edges@.len() == gold.node_to_edges@.len(),
            forall|i: int|
                0 <= i < gold.nodes@.len() ==> (#[trigger] self.node_to_edges@[i])@ == (
                if pids.contains(gold.nodes@[i].id) {
                    gold.node_to_edges@[i]@.push(id)
                } else {
                    gold.node_to_edges@[i]@
                }),
        ensures
            self.wf(),
            self.has_edge(id),
    {
        let jnew = gold.edges@.len() as int;
        assert(self.edges@[jnew].id == id);
        assert(self.has_edge(id));
        // Distinct edge ids: the new id collides with no stored one.
        assert forall|j: int| 0 <= j < jnew implies (#[trigger] self.edges@[j]).id != id by {
            if self.edges@[j].id == id {
                assert(gold.edges@[j].id == id);
                assert(gold.has_edge(id));
            }
        }
        // Node existence is unchanged.
        assert forall|x: u128| gold.has_node(x) implies self.has_node(x) by {
            let i = choose|i: int|
                0 <= i < gold.nodes@.len() && (#[trigger] gold.nodes@[i]).id == x;
            assert(self.nodes@[i].id == x);
        }
        // Incident lists stay duplicate-free.
        assert forall|i: int|
            0 <= i < self.nodes@.len() implies distinct_seq(
            (#[trigger] self.node_to_edges@[i])@,
        ) by {
            if pids.contains(gold.nodes@[i].id) {
                assert(!gold.node_to_edges@[i]@.contains(id)) by {
                    if gold.node_to_edges@[i]@.contains(id) {
                        assert(gold.edge_links(id, gold.nodes@[i].id));
                        let j = choose|j: int|
                            0 <= j < gold.edges@.len() && (#[trigger] gold.edges@[j]).id == id
                                && gold.edges@[j].node_ids@.contains(gold.nodes@[i].id);
                        assert(gold.has_edge(id));
                    }
                }
                let s = gold.node_to_edges@[i]@;
                assert(self.node_to_edges@[i]@ == s.push(id));
                assert forall|a: int, b: int|
                    0 <= a < b < s.push(id).len() implies s.push(id)[a] != s.push(id)[b] by {
                    if b == s.len() {
                        assert(s.push(id)[a] == s[a]);
                        assert(s.contains(s[a]));
                    }
                }
            }
        }
        // The adjacency law, in both directions.
        assert forall|i: int, e: u128|
            #![trigger self.node_to_edges@[i]@.contains(e)]
            #![trigger self.edge_links(e, self.nodes@[i].id)]
            0 <= i < self.nodes@.len() implies (self.node_to_edges@[i]@.contains(e)
            <==> self.edge_links(e, self.nodes@[i].id)) by {
            let nid = gold.nodes@[i].id;
            assert(gold.node_to_edges@[i]@.contains(e) <==> gold.edge_links(e, nid));
            // Old links carry over, and the new edge links exactly its
            // participants.
            assert(gold.edge_links(e, nid) ==> self.edge_links(e, nid)) by {
                if gold.edge_links(e, nid) {
                    let j = choose|j: int|
                        0 <= j < gold.edges@.len() && (#[trigger] gold.edges@[j]).id == e
                            && gold.edges@[j].node_ids@.contains(nid);
                    assert(self.edges@[j].id == e && self.edges@[j].node_ids@.contains(nid));
                }
            }
            assert(self.edge_links(e, nid) ==> (gold.edge_links(e, nid) || (e == id
                && pids.contains(nid)))) by {
                if self.edge_links(e, nid) {
                    let j = choose|j: int|
                        0 <= j < self.edges@.len() && (#[trigger] self.edges@[j]).id == e
                            && self.edges@[j].node_ids@.contains(nid);
                    if j < jnew {
                        assert(gold.edges@[j].id == e && gold.edges@[j].node_ids@.contains(nid));
                    }
                }
            }
            assert(e == id && pids.contains(nid) ==> self.edge_links(e, nid)) by {
                assert(self.edges@[jnew].id == id && self.edges@[jnew].node_ids@ == pids);
            }
            if pids.contains(nid) {
                let s = gold.node_to_edges@[i]@;
                assert(self.node_to_edges@[i]@ == s.push(id));
                assert(s.push(id).contains(e) <==> (s.contains(e) || e == id)) by {
                    if s.push(id).contains(e) {
                        let a = choose|a: int| 0 <= a < s.push(id).len() && s.push(id)[a] == e;
                        if a < s.len() {
                            assert(s[a] == e);
                        }
                    }
                    if s.contains(e) {
                        let a = choose|a: int| 0 <= a < s.len() && s[a] == e;
                        assert(s.push(id)[a] == e);
                    }
                    assert(s.push(id)[s.len() as int] == id);
                }
            } else {
                assert(self.node_to_edges@[i]@ == gold.node_to_edges@[i]@);
                if e == id && self.edge_links(e, nid) {
                    assert(pids.contains(nid));
                }
                if e == id && gold.edge_links(e, nid) {
                    let j = choose|j: int|
                        0 <= j < gold.edges@.len() && (#[trigger] gold.edges@[j]).id == e
                            && gold.edges@[j].node_ids@.contains(nid);
                    assert(gold.has_edge(id));
                }
            }
        }
    }
}

/// Extends a neighbour accumulation with one candidate: kept when it is
/// neither the node itself nor already present.
pub open spec fn neighbor_step(self_id: u128, acc: Seq<u128>, c: u128) -> Seq<u128> {
    if c != self_id && !acc.contains(c) {
        acc.push(c)
    } else {
        acc
    }
}

/// Folds [`neighbor_step`] over a candidate sequence, left to right.
pub open spec fn neighbor_fold(self_id: u128, acc: Seq<u128>, cands: Seq<u128>) -> Seq<u128>
    decreases cands.len(),
{
    if cands.len() == 0 {
        acc
    } else {
        neighbor_fold(self_id, neighbor_step(self_id, acc, cands[0]), cands.drop_first())
    }
}

/// The fold splits over concatenation.
pub proof fn lemma_neighbor_fold_append(self_id: u128, acc: Seq<u128>, s1: Seq<u128>, s2: Seq<
    u128,
>)
    ensures
        neighbor_fold(self_id, acc, s1 + s2) == neighbor_fold(
            self_id,
            neighbor_fold(self_id, acc, s1),
            s2,
        ),
    decreases s1.len(),
{
    if s1.len() == 0 {
        assert(s1 + s2 =~= s2);
    } else {
        assert((s1 + s2).drop_first() =~= s1.drop_first() + s2);
        assert((s1 + s2)[0] == s1[0]);
        lemma_neighbor_fold_append(self_id, neighbor_step(self_id, acc, s1[0]), s1.drop_first(), s2);
    }
}

/// Folding one more candidate applies one more step.
pub proof fn lemma_neighbor_fold_snoc(self_id: u128, acc: Seq<u128>, s: Seq<u128>, c: u128)
    ensures
        neighbor_fold(self_id, acc, s.push(c)) == neighbor_step(
            self_id,
            neighbor_fold(self_id, acc, s),
            c,
        ),
{
    let single = seq![c];
    assert(s.push(c) =~= s + single);
    lemma_neighbor_fold_append(self_id, acc, s, single);
    let mid = neighbor_fold(self_id, acc, s);
    assert(neighbor_fold(self_id, mid, single) == neighbor_fold(
        self_id,
        neighbor_step(self_id, mid, single[0]),
        single.drop_first(),
    ));
    assert(single[0] == c);
    assert(single.drop_first() =~= Seq::<u128>::empty());
    assert(neighbor_fold(self_id, neighbor_step(self_id, mid, c), Seq::<u128>::empty())
        == neighbor_step(self_id, mid, c));
}

/// What the fold accumulates: every candidate once, the node itself and
/// duplicates left out, with the accumulator kept duplicate-free.
pub proof fn lemma_neighbor_fold_props(self_id: u128, acc: Seq<u128>, cands: Seq<u128>)
    requires
        distinct_seq(acc),
    ensures
        distinct_seq(neighbor_fold(self_id, acc, cands)),
        forall|x: u128|
            #[trigger] neighbor_fold(self_id, acc, cands).contains(x) <==> (acc.contains(x) || (
            cands.contains(x) && x != self_id)),
    decreases cands.len(),
{
    if cands.len() == 0 {
        assert forall|x: u128| #[trigger] cands.contains(x) implies false by {}
    } else {
        let c = cands[0];
        let acc2 = neighbor_step(self_id, acc, c);
        assert(distinct_seq(acc2)) by {
            if c != self_id && !acc.contains(c) {
                assert forall|a: int, b: int|
                    0 <= a < b < acc.push(c).len() implies acc.push(c)[a] != acc.push(c)[b] by {
                    if b == acc.len() {
                        assert(acc.push(c)[a] == acc[a]);
                        assert(acc.contains(acc[a]));
                    }
                }
            }
        }
        lemma_neighbor_fold_props(self_id, acc2, cands.drop_first());
        assert forall|x: u128| #[trigger] acc2.contains(x) implies (acc.contains(x) || (
        cands.contains(x) && x != self_id)) by {
            if c != self_id && !acc.contains(c) && !acc.contains(x) {
                let a = choose|a: int| 0 <= a < acc.push(c).len() && acc.push(c)[a] == x;
                if a < acc.len() {
                    assert(acc.contains(x));
                } else {
                    assert(x == c);
                    assert(cands.contains(c));
                }
            }
        }
        assert forall|x: u128| (acc.contains(x) || (cands.contains(x) && x != self_id)) implies (
        acc2.contains(x) || (cands.drop_first().contains(x) && x != self_id)) by {
            if acc.contains(x) {
                if c != self_id && !acc.contains(c) {
                    let a = choose|a: int| 0 <= a < acc.len() && acc[a] == x;
                    assert(acc.push(c)[a] == x);
                }
            } else if cands.contains(x) && x != self_id {
                let a = choose|a: int| 0 <= a < cands.len() && cands[a] == x;
                if a == 0 {
                    assert(x == c);
                    if !acc.contains(c) {
                        assert(acc.push(c).last() == c);
                    }
                } else {
                    assert(cands.drop_first()[a - 1] == x);
                }
            }
        }
        assert forall|x: u128|
            (cands.drop_first().contains(x)) implies #[trigger] cands.contains(x) by {
            let a = choose|a: int| 0 <= a < cands.drop_first().len() && cands.drop_first()[a] == x;
            assert(cands[a + 1] == x);
        }
    }
}

impl HyperGraph {
    /// The participant list of a stored edge, or empty.
    pub open spec fn edge_nodes_or_empty(self, e: u128) -> Seq<u128> {
        if self.has_edge(e) {
            self.edge_at(e).node_ids@
        } else {
            Seq::empty()
        }
    }

    /// The participant lists of these edges, concatenated.
    pub open spec fn candidate_seq(self, eids: Seq<u128>) -> Seq<u128>
        decreases eids.len(),
    {
        if eids.len() == 0 {
            Seq::empty()
        } else {
            self.edge_nodes_or_empty(eids[0]) + self.candidate_seq(eids.drop_first())
        }
    }

    /// Adding one more edge appends its participant list.
    pub proof fn lemma_candidate_seq_snoc(self, eids: Seq<u128>, e: u128)
        ensures
            self.candidate_seq(eids.push(e)) == self.candidate_seq(eids)
                + self.edge_nodes_or_empty(e),
        decreases eids.len(),
    {
        if eids.len() == 0 {
            let s1 = eids.push(e);
            assert(s1[0] == e);
            assert(s1.drop_first() =~= Seq::<u128>::empty());
            assert(self.candidate_seq(s1) == self.edge_nodes_or_empty(e) + self.candidate_seq(
                Seq::empty(),
            ));
            assert(self.candidate_seq(Seq::<u128>::empty()) =~= Seq::<u128>::empty());
            assert(self.edge_nodes_or_empty(e) + Seq::<u128>::empty()
                =~= self.edge_nodes_or_empty(e));
            assert(self.candidate_seq(eids) =~= Seq::<u128>::empty());
            assert(self.candidate_seq(eids) + self.edge_nodes_or_empty(e)
                =~= self.edge_nodes_or_empty(e));
        } else {
            assert(eids.push(e)[0] == eids[0]);
            assert(eids.push(e).drop_first() =~= eids.drop_first().push(e));
            self.lemma_candidate_seq_snoc(eids.drop_first(), e);
            assert(self.edge_nodes_or_empty(eids[0]) + (self.candidate_seq(eids.drop_first())
                + self.edge_nodes_or_empty(e)) =~= (self.edge_nodes_or_empty(eids[0])
                + self.candidate_seq(eids.drop_first())) + self.edge_nodes_or_empty(e));
        }
    }

    /// A candidate is any participant of any of the edges.
    pub proof fn lemma_candidate_seq_contains(self, eids: Seq<u128>, x: u128)
        ensures
            self.candidate_seq(eids).contains(x) <==> exists|k: int|
                0 <= k < eids.len() && self.edge_nodes_or_empty(#[trigger] eids[k]).contains(x),
        decreases eids.len(),
    {
        if eids.len() > 0 {
            self.lemma_candidate_seq_contains(eids.drop_first(), x);
            let head = self.edge_nodes_or_empty(eids[0]);
            let rest = self.candidate_seq(eids.drop_first());
            assert(self.candidate_seq(eids) == head + rest);
            if self.candidate_seq(eids).contains(x) {
                let a = choose|a: int| 0 <= a < (head + rest).len() && (head + rest)[a] == x;
                if a < head.len() {
                    assert(self.edge_nodes_or_empty(eids[0]).contains(x));
                } else {
                    assert(rest[a - head.len()] == x);
                    assert(rest.contains(x));
                    let k = choose|k: int|
                        0 <= k < eids.drop_first().len() && self.edge_nodes_or_empty(
                            #[trigger] eids.drop_first()[k],
                        ).contains(x);
                    assert(eids[k + 1] == eids.drop_first()[k]);
                }
            }
            if exists|k: int|
                0 <= k < eids.len() && self.edge_nodes_or_empty(#[trigger] eids[k]).contains(x) {
                let k = choose|k: int|
                    0 <= k < eids.len() && self.edge_nodes_or_empty(#[trigger] eids[k]).contains(
                        x,
                    );
                if k == 0 {
                    let a = choose|a: int| 0 <= a < head.len() && head[a] == x;
                    assert((head + rest)[a] == x);
                } else {
                    assert(eids.drop_first()[k - 1] == eids[k]);
                    assert(rest.contains(x));
                    let a = choose|a: int| 0 <= a < rest.len() && rest[a] == x;
                    assert((head + rest)[head.len() + a] == x);
                }
            }
        }
    }

    /// The distinct nodes co-incident with `id` on any edge, in
    /// first-encounter order, `id` itself left out.
    pub open spec fn neighbors_of(self, id: u128) -> Seq<u128> {
        neighbor_fold(id, Seq::empty(), self.candidate_seq(self.incident_edges(id)))
    }

    /// The neighbour list is duplicate-free, excludes the node, and
    /// holds exactly the nodes sharing an edge with it.
    pub proof fn lemma_neighbors_of(self, id: u128)
        requires
            self.wf(),
        ensures
            distinct_seq(self.neighbors_of(id)),
            !self.neighbors_of(id).contains(id),
            forall|x: u128|
                #[trigger] self.neighbors_of(id).contains(x) <==> (x != id && exists|j: int|
                    0 <= j < self.edges@.len() && (#[trigger] self.edges@[j]).node_ids@.contains(
                        id,
                    ) && self.edges@[j].node_ids@.contains(x)),
    {
        let cands = self.candidate_seq(self.incident_edges(id));
        lemma_neighbor_fold_props(id, Seq::empty(), cands);
        assert forall|x: u128| #[trigger] cands.contains(x) && x != id implies (exists|j: int|
            0 <= j < self.edges@.len() && (#[trigger] self.edges@[j]).node_ids@.contains(id)
                && self.edges@[j].node_ids@.contains(x)) by {
            self.lemma_candidate_seq_contains(self.incident_edges(id), x);
            let k = choose|k: int|
                0 <= k < self.incident_edges(id).len() && self.edge_nodes_or_empty(
                    #[trigger] self.incident_edges(id)[k],
                ).contains(x);
            let e = self.incident_edges(id)[k];
            assert(self.has_node(id));
            self.lemma_node_index(id);
            let i = self.node_index_of(id);
            assert(self.node_to_edges@[i]@.contains(e));
            assert(self.edge_links(e, id));
            let j = choose|j: int|
                0 <= j < self.edges@.len() && (#[trigger] self.edges@[j]).id == e
                    && self.edges@[j].node_ids@.contains(id);
            assert(self.has_edge(e));
            self.lemma_edge_index(e);
            assert(j == self.edge_index_of(e));
            assert(self.edge_nodes_or_empty(e) == self.edges@[j].node_ids@);
        }
        assert forall|x: u128|
            (x != id && exists|j: int|
                0 <= j < self.edges@.len() && (#[trigger] self.edges@[j]).node_ids@.contains(id)
                    && self.edges@[j].node_ids@.contains(x)) implies #[trigger] cands.contains(
            x,
        ) by {
            let j = choose|j: int|
                0 <= j < self.edges@.len() && (#[trigger] self.edges@[j]).node_ids@.contains(id)
                    && self.edges@[j].node_ids@.contains(x);
            let e = self.edges@[j].id;
            assert(self.edge_links(e, id));
            let ki = choose|k: int|
                0 <= k < self.edges@[j].node_ids@.len() && self.edges@[j].node_ids@[k] == id;
            assert(self.has_node(id));
            self.lemma_node_index(id);
            let i = self.node_index_of(id);
            assert(self.nodes@[i].id == id);
            assert(self.node_to_edges@[i]@.contains(e));
            assert(self.incident_edges(id).contains(e));
            let k = choose|k: int|
                0 <= k < self.incident_edges(id).len() && self.incident_edges(id)[k] == e;
            assert(self.has_edge(e));
            self.lemma_edge_index(e);
            assert(self.edge_index_of(e) == j);
            assert(self.edge_nodes_or_empty(e).contains(x));
            self.lemma_candidate_seq_contains(self.incident_edges(id), x);
        }
    }

    /// The ids of the edges incident to this node, or empty when the
    /// node is unknown.
    pub fn get_node_edges(&self, id: u128) -> (r: Vec<u128>)
        requires
            self.wf(),
        ensures
            r@ == self.incident_edges(id),
    {
        match self.find_node_index(id) {
            Some(i) => {
                proof {
                    self.lemma_node_index(id);
                }
                copy_ids(&self.node_to_edges[i])
            },
            None => {
                Vec::new()
            },
        }
    }

    /// The distinct nodes connected to this node through any edge,
    /// the node itself excluded.  Unknown ids have no neighbours.
    pub fn get_neighbors(&self, id: u128) -> (r: Vec<u128>)
        requires
            self.wf(),
        ensures
            r@ == self.neighbors_of(id),
    {
        let mut result: Vec<u128> = Vec::new();
        let idx = match self.find_node_index(id) {
            Some(i) => i,
            None => {
                return result;
            },
        };
        proof {
            self.lemma_node_index(id);
            assert(idx == self.node_index_of(id));
            assert(self.incident_edges(id) == self.node_to_edges@[idx as int]@);
        }
        let ghost incident = self.incident_edges(id);
        let mut k: usize = 0;
        while k < self.node_to_edges[idx].len()
            invariant
                self.wf(),
                idx < self.nodes@.len(),
                idx == self.node_index_of(id),
                self.has_node(id),
                incident == self.node_to_edges@[idx as int]@,
                incident == self.incident_edges(id),
                k <= incident.len(),
                result@ == neighbor_fold(
                    id,
                    Seq::empty(),
                    self.candidate_seq(incident.take(k as int)),
                ),
            decreases incident.len() - k,
        {
            let eid = self.node_to_edges[idx][k];
            let j = match self.find_edge_index(eid) {
                Some(j) => j,
                None => {
                    proof {
                        assert(self.node_to_edges@[idx as int]@.contains(eid)) by {
                            assert(self.node_to_edges@[idx as int]@[k as int] == eid);
                        }
                        assert(self.edge_links(eid, self.nodes@[idx as int].id));
                        let jw = choose|jw: int|
                            0 <= jw < self.edges@.len() && (#[trigger] self.edges@[jw]).id == eid
                                && self.edges@[jw].node_ids@.contains(self.nodes@[idx as int].id);
                        assert(self.has_edge(eid));
                        assert(false);
                    }
                    0
                },
            };
            proof {
                assert(self.node_to_edges@[idx as int]@[k as int] == eid);
                assert(self.node_to_edges@[idx as int]@.contains(eid));
                assert(self.edge_links(eid, self.nodes@[idx as int].id));
                let jw = choose|jw: int|
                    0 <= jw < self.edges@.len() && (#[trigger] self.edges@[jw]).id == eid
                        && self.edges@[jw].node_ids@.contains(self.nodes@[idx as int].id);
                assert(self.has_edge(eid));
                self.lemma_edge_index(eid);
                assert(j == self.edge_index_of(eid));
                assert(self.edge_nodes_or_empty(eid) == self.edges@[j as int].node_ids@);
            }
            let ghost members = self.edges@[j as int].node_ids@;
            let ghost prefix = self.candidate_seq(incident.take(k as int));
            let mut m: usize = 0;
            while m < self.edges[j].node_ids.len()
                invariant
                    self.wf(),
                    j < self.edges@.len(),
                    members == self.edges@[j as int].node_ids@,
                    m <= members.len(),
                    result@ == neighbor_fold(id, Seq::empty(), prefix + members.take(m as int)),
                decreases members.len() - m,
            {
                let c = self.edges[j].node_ids[m];
                let ghost acc_before = result@;
                if c != id && !ids_contain(&result, c) {
                    result.push(c);
                }
                proof {
                    assert(result@ == neighbor_step(id, acc_before, c));
                    assert(prefix + members.take(m + 1) =~= (prefix + members.take(
                        m as int,
                    )).push(c));
                    lemma_neighbor_fold_snoc(id, Seq::empty(), prefix + members.take(m as int), c);
                }
                m += 1;
            }
            proof {
                assert(members.take(members.len() as int) =~= members);
                self.lemma_candidate_seq_snoc(incident.take(k as int), eid);
                assert(incident.take(k + 1) =~= incident.take(k as int).push(eid));
                assert(self.candidate_seq(incident.take(k + 1)) == prefix + members);
            }
            k += 1;
        }
        proof {
            assert(incident.take(incident.len() as int) =~= incident);
        }
        result
    }
}

/// The first value stored under `key`, if any.
pub open spec fn prop_lookup(props: Seq<PropEntry>, key: Seq<char>) -> Option<Seq<char>>
    decreases props.len(),
{
    if props.len() == 0 {
        None
    } else if props[0].key@ == key {
        Some(props[0].value@)
    } else {
        prop_lookup(props.drop_first(), key)
    }
}

/// True when the node stores `value` under `key`.
pub open spec fn node_matches_property(n: HyperNode, key: Seq<char>, value: Seq<char>) -> bool {
    prop_lookup(n.properties@, key) == Some(value)
}

/// True when `n` keeps every field of `m` but carries a new activation
/// level, stamped at `now_ms`; crossing the spike threshold records the
/// spike.
pub open spec fn is_activation_update(n: HyperNode, m: HyperNode, activation: u64, now_ms: u64) -> bool {
    &&& n.id == m.id
    &&& n.data == m.data
    &&& n.created_at == m.created_at
    &&& n.updated_at == now_ms
    &&& n.activation_level == activation
    &&& if activation > SPIKE_THRESHOLD {
        n.last_spike_time == Some(now_ms) && n.spike_count == sat_add(m.spike_count as int, 1)
    } else {
        n.last_spike_time == m.last_spike_time && n.spike_count == m.spike_count
    }
    &&& n.node_type == m.node_type
    &&& n.tags == m.tags
    &&& n.properties == m.properties
}

/// True when `e` keeps every field of `d` but carries a new
/// conductance, stamped and counted at `now_ms`.
pub open spec fn is_conductance_update(e: HyperEdge, d: HyperEdge, conductance: u64, now_ms: u64) -> bool {
    &&& e.id == d.id
    &&& e.node_ids@ == d.node_ids@
    &&& e.relationship == d.relationship
    &&& e.strength == d.strength
    &&& e.created_at == d.created_at
    &&& e.updated_at == now_ms
    &&& e.conductance == conductance
    &&& e.last_activation == Some(now_ms)
    &&& e.activation_count == sat_add(d.activation_count as int, 1)
    &&& e.edge_type == d.edge_type
    &&& e.weight_decay == d.weight_decay
    &&& e.properties == d.properties
}

/// True when `n` is `m` with its activation multiplied by `rate`.
pub open spec fn is_decayed_node(n: HyperNode, m: HyperNode, rate: u64) -> bool {
    &&& n.id == m.id
    &&& n.data == m.data
    &&& n.created_at == m.created_at
    &&& n.updated_at == m.updated_at
    &&& n.activation_level == crate::fixed::fx_mul(m.activation_level as int, rate as int)
    &&& n.last_spike_time == m.last_spike_time
    &&& n.spike_count == m.spike_count
    &&& n.node_type == m.node_type
    &&& n.tags == m.tags
    &&& n.properties == m.properties
}

/// True when `e` is `d` with its conductance multiplied by the edge's
/// own decay factor.
pub open spec fn is_decayed_edge(e: HyperEdge, d: HyperEdge) -> bool {
    &&& e.id == d.id
    &&& e.node_ids@ == d.node_ids@
    &&& e.relationship == d.relationship
    &&& e.strength == d.strength
    &&& e.created_at == d.created_at
    &&& e.updated_at == d.updated_at
    &&& e.conductance == crate::fixed::fx_mul(d.conductance as int, d.weight_decay as int)
    &&& e.last_activation == d.last_activation
    &&& e.activation_count == d.activation_count
    &&& e.edge_type == d.edge_type
    &&& e.weight_decay == d.weight_decay
    &&& e.properties == d.properties
}

impl HyperGraph {
    /// The invariants survive any change that keeps both indices, all
    /// ids, every participant list and the scalar bounds.
    proof fn lemma_wf_pointwise(self, gold: HyperGraph)
        requires
            gold.wf(),
            self.node_to_edges@ == gold.node_to_edges@,
            self.edge_to_nodes@ == gold.edge_to_nodes@,
            self.nodes@.len() == gold.nodes@.len(),
            self.edges@.len() == gold.edges@.len(),
            forall|k: int|
                0 <= k < gold.nodes@.len() ==> (#[trigger] self.nodes@[k]).id
                    == gold.nodes@[k].id,
            forall|k: int| 0 <= k < gold.nodes@.len() ==> (#[trigger] self.nodes@[k]).wf(),
            forall|k: int|
                0 <= k < gold.edges@.len() ==> (#[trigger] self.edges@[k]).id
                    == gold.edges@[k].id,
            forall|k: int|
                0 <= k < gold.edges@.len() ==> (#[trigger] self.edges@[k]).node_ids@
                    == gold.edges@[k].node_ids@,
            forall|k: int| 0 <= k < gold.edges@.len() ==> (#[trigger] self.edges@[k]).wf(),
        ensures
            self.wf(),
    {
        assert forall|x: u128| gold.has_node(x) == self.has_node(x) by {
            if gold.has_node(x) {
                let i = choose|i: int|
                    0 <= i < gold.nodes@.len() && (#[trigger] gold.nodes@[i]).id == x;
                assert(self.nodes@[i].id == x);
            }
            if self.has_node(x) {
                let i = choose|i: int|
                    0 <= i < self.nodes@.len() && (#[trigger] self.nodes@[i]).id == x;
                assert(gold.nodes@[i].id == x);
            }
        }
        assert forall|e: u128, nid: u128|
            gold.edge_links(e, nid) == self.edge_links(e, nid) by {
            if gold.edge_links(e, nid) {
                let j = choose|j: int|
                    0 <= j < gold.edges@.len() && (#[trigger] gold.edges@[j]).id == e
                        && gold.edges@[j].node_ids@.contains(nid);
                assert(self.edges@[j].id == e && self.edges@[j].node_ids@.contains(nid));
            }
            if self.edge_links(e, nid) {
                let j = choose|j: int|
                    0 <= j < self.edges@.len() && (#[trigger] self.edges@[j]).id == e
                        && self.edges@[j].node_ids@.contains(nid);
                assert(gold.edges@[j].id == e && gold.edges@[j].node_ids@.contains(nid));
            }
        }
        assert forall|j: int|
            0 <= j < self.edges@.len() implies (#[trigger] self.edge_to_nodes@[j])@
            == self.edges@[j].node_ids@ by {
            assert(gold.edge_to_nodes@[j]@ == gold.edges@[j].node_ids@);
        }
        assert forall|j: int, k: int|
            0 <= j < self.edges@.len() && 0 <= k < self.edges@[j].node_ids@.len() implies self.has_node(
            #[trigger] self.edges@[j].node_ids@[k]) by {
            assert(gold.has_node(gold.edges@[j].node_ids@[k]));
        }
        assert forall|i: int, e: u128|
            #![trigger self.node_to_edges@[i]@.contains(e)]
            #![trigger self.edge_links(e, self.nodes@[i].id)]
            0 <= i < self.nodes@.len() implies (self.node_to_edges@[i]@.contains(e)
            <==> self.edge_links(e, self.nodes@[i].id)) by {
            assert(gold.node_to_edges@[i]@.contains(e) <==> gold.edge_links(
                e,
                gold.nodes@[i].id,
            ));
        }
    }

    /// True when `n` stores `value` under `key`.
    fn node_property_matches(n: &HyperNode, key: &String, value: &String) -> (r: bool)
        ensures
            r == node_matches_property(*n, key@, value@),
    {
        proof {
            assert(n.properties@.skip(0) =~= n.properties@);
        }
        let mut m: usize = 0;
        while m < n.properties.len()
            invariant
                m <= n.properties@.len(),
                prop_lookup(n.properties@, key@) == prop_lookup(
                    n.properties@.skip(m as int),
                    key@,
                ),
            decreases n.properties@.len() - m,
        {
            proof {
                assert(n.properties@.skip(m as int)[0] == n.properties@[m as int]);
                assert(n.properties@.skip(m as int).drop_first() =~= n.properties@.skip(m + 1));
            }
            if n.properties[m].key == *key {
                return n.properties[m].value == *value;
            }
            m += 1;
        }
        proof {
            assert(n.properties@.skip(n.properties@.len() as int).len() == 0);
        }
        false
    }

    /// Every node that stores `value` under `key`, by id, in store
    /// order.
    pub fn find_nodes_by_property(&self, key: &String, value: &String) -> (r: Vec<u128>)
        ensures
            r@ == self.nodes@.filter(
                |n: HyperNode| node_matches_property(n, key@, value@),
            ).map_values(|n: HyperNode| n.id),
    {
        let ghost pred = |n: HyperNode| node_matches_property(n, key@, value@);
        let ghost to_id = |n: HyperNode| n.id;
        let mut r: Vec<u128> = Vec::new();
        let mut i: usize = 0;
        while i < self.nodes.len()
            invariant
                i <= self.nodes@.len(),
                pred == (|n: HyperNode| node_matches_property(n, key@, value@)),
                to_id == (|n: HyperNode| n.id),
                r@ == self.nodes@.take(i as int).filter(pred).map_values(to_id),
            decreases self.nodes@.len() - i,
        {
            let ghost prefix = self.nodes@.take(i as int);
            proof {
                assert(self.nodes@.take(i + 1).drop_last() =~= prefix);
                assert(self.nodes@.take(i + 1).last() == self.nodes@[i as int]);
                reveal(Seq::filter);
            }
            if Self::node_property_matches(&self.nodes[i], key, value) {
                r.push(self.nodes[i].id);
                proof {
                    assert(self.nodes@.take(i + 1).filter(pred) == prefix.filter(pred).push(
                        self.nodes@[i as int],
                    ));
                    assert(prefix.filter(pred).push(self.nodes@[i as int]).map_values(to_id)
                        =~= prefix.filter(pred).map_values(to_id).push(
                        self.nodes@[i as int].id,
                    ));
                }
            } else {
                proof {
                    assert(self.nodes@.take(i + 1).filter(pred) == prefix.filter(pred));
                }
            }
            i += 1;
        }
        proof {
            assert(self.nodes@.take(self.nodes@.len() as int) =~= self.nodes@);
        }
        r
    }

    /// Sets a node's activation level and stamps it; an activation
    /// above the spike threshold records a spike.
    pub fn update_node_activation(&mut self, id: u128, activation: u64, now_ms: u64) -> (r:
        Result<(), GraphError>)
        requires
            old(self).wf(),
            activation <= MAX_LEVEL,
        ensures
            final(self).wf(),
            match r {
                Ok(()) => {
                    &&& old(self).has_node(id)
                    &&& final(self).nodes@.len() == old(self).nodes@.len()
                    &&& forall|k: int|
                        0 <= k < old(self).nodes@.len() && k != old(self).node_index_of(id)
                            ==> final(self).nodes@[k] == old(self).nodes@[k]
                    &&& is_activation_update(
                        final(self).nodes@[old(self).node_index_of(id)],
                        old(self).nodes@[old(self).node_index_of(id)],
                        activation,
                        now_ms,
                    )
                    &&& final(self).edges@ == old(self).edges@
                    &&& final(self).node_to_edges@ == old(self).node_to_edges@
                    &&& final(self).edge_to_nodes@ == old(self).edge_to_nodes@
                },
                Err(GraphError::UnknownNode) => !old(self).has_node(id) && *final(self) == *old(
                    self,
                ),
                Err(_) => false,
            },
    {
        let i = match self.find_node_index(id) {
            Some(i) => i,
            None => {
                return Err(GraphError::UnknownNode);
            },
        };
        proof {
            self.lemma_node_index(id);
        }
        let ghost gold = *self;
        let ghost before = self.nodes@;
        let n = self.nodes.remove(i);
        let (spike_time, spikes) = if activation > SPIKE_THRESHOLD {
            (Some(now_ms), sat_add64(n.spike_count, 1))
        } else {
            (n.last_spike_time, n.spike_count)
        };
        let n2 = HyperNode {
            id: n.id,
            data: n.data,
            created_at: n.created_at,
            updated_at: now_ms,
            activation_level: activation,
            last_spike_time: spike_time,
            spike_count: spikes,
            node_type: n.node_type,
            tags: n.tags,
            properties: n.properties,
        };
        self.nodes.insert(i, n2);
        proof {
            assert(self.nodes@ =~= before.update(i as int, self.nodes@[i as int]));
            self.lemma_wf_pointwise(gold);
        }
        Ok(())
    }

    /// Sets an edge's conductance, stamps it and counts the activation.
    pub fn update_edge_conductance(&mut self, id: u128, conductance: u64, now_ms: u64) -> (r:
        Result<(), GraphError>)
        requires
            old(self).wf(),
            conductance <= ONE,
        ensures
            final(self).wf(),
            match r {
                Ok(()) => {
                    &&& old(self).has_edge(id)
                    &&& final(self).edges@.len() == old(self).edges@.len()
                    &&& forall|k: int|
                        0 <= k < old(self).edges@.len() && k != old(self).edge_index_of(id)
                            ==> final(self).edges@[k] == old(self).edges@[k]
                    &&& is_conductance_update(
                        final(self).edges@[old(self).edge_index_of(id)],
                        old(self).edges@[old(self).edge_index_of(id)],
                        conductance,
                        now_ms,
                    )
                    &&& final(self).nodes@ == old(self).nodes@
                    &&& final(self).node_to_edges@ == old(self).node_to_edges@
                    &&& final(self).edge_to_nodes@ == old(self).edge_to_nodes@
                },
                Err(GraphError::UnknownEdge) => !old(self).has_edge(id) && *final(self) == *old(
                    self,
                ),
                Err(_) => false,
            },
    {
        let j = match self.find_edge_index(id) {
            Some(j) => j,
            None => {
                return Err(GraphError::UnknownEdge);
            },
        };
        proof {
            self.lemma_edge_index(id);
        }
        let ghost gold = *self;
        let ghost before = self.edges@;
        let e = self.edges.remove(j);
        let e2 = HyperEdge {
            id: e.id,
            node_ids: e.node_ids,
            relationship: e.relationship,
            strength: e.strength,
            created_at: e.created_at,
            updated_at: now_ms,
            conductance,
            last_activation: Some(now_ms),
            activation_count: sat_add64(e.activation_count, 1),
            edge_type: e.edge_type,
            weight_decay: e.weight_decay,
            properties: e.properties,
        };
        self.edges.insert(j, e2);
        proof {
            assert(self.edges@ =~= before.update(j as int, self.edges@[j as int]));
            self.lemma_wf_pointwise(gold);
        }
        Ok(())
    }

    /// Multiplies every node activation by `rate` and every edge
    /// conductance by that edge's own decay factor.  Nothing else
    /// changes.
    pub fn apply_decay(&mut self, rate: u64)
        requires
            old(self).wf(),
            rate <= ONE,
        ensures
            final(self).wf(),
            final(self).nodes@.len() == old(self).nodes@.len(),
            final(self).edges@.len() == old(self).edges@.len(),
            forall|k: int|
                0 <= k < old(self).nodes@.len() ==> is_decayed_node(
                    #[trigger] final(self).nodes@[k],
                    old(self).nodes@[k],
                    rate,
                ),
            forall|k: int|
                0 <= k < old(self).edges@.len() ==> is_decayed_edge(
                    #[trigger] final(self).edges@[k],
                    old(self).edges@[k],
                ),
            final(self).node_to_edges@ == old(self).node_to_edges@,
            final(self).edge_to_nodes@ == old(self).edge_to_nodes@,
    {
        let mut i: usize = 0;
        while i < self.nodes.len()
            invariant
                old(self).wf(),
                rate <= ONE,
                self.edges@ == old(self).edges@,
                self.node_to_edges@ == old(self).node_to_edges@,
                self.edge_to_nodes@ == old(self).edge_to_nodes@,
                self.nodes@.len() == old(self).nodes@.len(),
                i <= self.nodes@.len(),
                forall|k: int|
                    0 <= k < i ==> is_decayed_node(
                        #[trigger] self.nodes@[k],
                        old(self).nodes@[k],
                        rate,
                    ),
                forall|k: int| 0 <= k < i ==> (#[trigger] self.nodes@[k]).wf(),
                forall|k: int|
                    i <= k < self.nodes@.len() ==> #[trigger] self.nodes@[k] == old(
                        self,
                    ).nodes@[k],
            decreases self.nodes@.len() - i,
        {
            let ghost before = self.nodes@;
            let n = self.nodes.remove(i);
            let a = crate::fixed::mul_rate(n.activation_level, rate);
            let n2 = HyperNode {
                id: n.id,
                data: n.data,
                created_at: n.created_at,
                updated_at: n.updated_at,
                activation_level: a,
                last_spike_time: n.last_spike_time,
                spike_count: n.spike_count,
                node_type: n.node_type,
                tags: n.tags,
                properties: n.properties,
            };
            self.nodes.insert(i, n2);
            proof {
                assert(self.nodes@ =~= before.update(i as int, self.nodes@[i as int]));
            }
            i += 1;
        }
        let mut j: usize = 0;
        while j < self.edges.len()
            invariant
                old(self).wf(),
                rate <= ONE,
                self.node_to_edges@ == old(self).node_to_edges@,
                self.edge_to_nodes@ == old(self).edge_to_nodes@,
                self.nodes@.len() == old(self).nodes@.len(),
                forall|k: int|
                    0 <= k < self.nodes@.len() ==> is_decayed_node(
                        #[trigger] self.nodes@[k],
                        old(self).nodes@[k],
                        rate,
                    ),
                forall|k: int| 0 <= k < self.nodes@.len() ==> (#[trigger] self.nodes@[k]).wf(),
                self.edges@.len() == old(self).edges@.len(),
                j <= self.edges@.len(),
                forall|k: int|
                    0 <= k < j ==> is_decayed_edge(
                        #[trigger] self.edges@[k],
                        old(self).edges@[k],
                    ),
                forall|k: int| 0 <= k < j ==> (#[trigger] self.edges@[k]).wf(),
                forall|k: int|
                    j <= k < self.edges@.len() ==> #[trigger] self.edges@[k] == old(
                        self,
                    ).edges@[k],
            decreases self.edges@.len() - j,
        {
            let ghost before = self.edges@;
            let e = self.edges.remove(j);
            let c = crate::fixed::mul_rate(e.conductance, e.weight_decay);
            let e2 = HyperEdge {
                id: e.id,
                node_ids: e.node_ids,
                relationship: e.relationship,
                strength: e.strength,
                created_at: e.created_at,
                updated_at: e.updated_at,
                conductance: c,
                last_activation: e.last_activation,
                activation_count: e.activation_count,
                edge_type: e.edge_type,
                weight_decay: e.weight_decay,
                properties: e.properties,
            };
            self.edges.insert(j, e2);
            proof {
                assert(self.edges@ =~= before.update(j as int, self.edges@[j as int]));
            }
            j += 1;
        }
        proof {
            self.lemma_wf_pointwise(*old(self));
        }
    }

    /// The sum of the incident-list lengths over the first `k` nodes.
    pub open spec fn degree_sum(lists: Seq<Vec<u128>>) -> int
        decreases lists.len(),
    {
        if lists.len() == 0 {
            0
        } else {
            Self::degree_sum(lists.drop_last()) + lists.last()@.len()
        }
    }

    /// The degree sum never exceeds nodes times edges.
    proof fn lemma_degree_sum_bound(self, k: int)
        requires
            self.wf(),
            0 <= k <= self.node_to_edges@.len(),
        ensures
            0 <= Self::degree_sum(self.node_to_edges@.take(k)) <= k * self.edges@.len(),
        decreases k,
    {
        if k > 0 {
            self.lemma_degree_sum_bound(k - 1);
            assert(self.node_to_edges@.take(k).drop_last() =~= self.node_to_edges@.take(k - 1));
            assert(self.node_to_edges@.take(k).last() == self.node_to_edges@[k - 1]);
            assert(self.node_to_edges@[k - 1]@.len() <= self.edges@.len());
            assert((k - 1) * self.edges@.len() + self.edges@.len() == k * self.edges@.len())
                by (nonlinear_arith);
        }
    }

    /// The mean number of incident edges per node, as a fixed-point
    /// scalar; zero for an empty store.
    pub fn average_degree(&self) -> (r: u64)
        requires
            self.wf(),
        ensures
            r == if self.nodes@.len() == 0 {
                0int
            } else {
                Self::degree_sum(self.node_to_edges@) * ONE / (self.nodes@.len() as int)
            },
    {
        if self.nodes.len() == 0 {
            return 0;
        }
        let mut sum: u64 = 0;
        let mut i: usize = 0;
        while i < self.node_to_edges.len()
            invariant
                self.wf(),
                i <= self.node_to_edges@.len(),
                sum == Self::degree_sum(self.node_to_edges@.take(i as int)),
                sum <= i * self.edges@.len(),
            decreases self.node_to_edges@.len() - i,
        {
            proof {
                assert(self.node_to_edges@.take(i + 1).drop_last() =~= self.node_to_edges@.take(
                    i as int,
                ));
                assert(self.node_to_edges@.take(i + 1).last() == self.node_to_edges@[i as int]);
                assert(self.node_to_edges@[i as int]@.len() <= self.edges@.len());
                assert(i * self.edges@.len() + self.edges@.len() == (i + 1) * self.edges@.len())
                    by (nonlinear_arith);
                assert((i + 1) * self.edges@.len() <= MAX_COUNT * MAX_COUNT)
                    by (nonlinear_arith)
                    requires
                        0 <= i + 1 <= MAX_COUNT,
                        0 <= self.edges@.len() <= MAX_COUNT,
                ;
            }
            sum = sum + self.node_to_edges[i].len() as u64;
            i += 1;
        }
        proof {
            assert(self.node_to_edges@.take(self.node_to_edges@.len() as int)
                =~= self.node_to_edges@);
        }
        let n = self.nodes.len() as u64;
        let prod: u128 = (sum as u128) * (ONE as u128);
        let avg: u128 = prod / (n as u128);
        proof {
            let s = Self::degree_sum(self.node_to_edges@) as int;
            let ecount = self.edges@.len() as int;
            self.lemma_degree_sum_bound(self.node_to_edges@.len() as int);
            assert(s <= (n as int) * ecount);
            assert(s * ONE / (n as int) <= MAX_COUNT * (ONE as int)) by (nonlinear_arith)
                requires
                    n >= 1,
                    0 <= s,
                    s <= (n as int) * ecount,
                    0 <= ecount <= MAX_COUNT,
            ;
        }
        avg as u64
    }

    /// Every stored edge is indexed under each of its participants, and
    /// every indexed edge id leads back to an edge that lists the node:
    /// the two adjacency indices always agree with the primary maps.
    pub proof fn lemma_adjacency_consistent(self)
        requires
            self.wf(),
        ensures
            forall|j: int, k: int|
                0 <= j < self.edges@.len() && 0 <= k < self.edges@[j].node_ids@.len()
                    ==> self.incident_edges(#[trigger] self.edges@[j].node_ids@[k]).contains(
                    self.edges@[j].id,
                ),
            forall|i: int, e: u128|
                0 <= i < self.nodes@.len() && #[trigger] self.node_to_edges@[i]@.contains(e)
                    ==> self.has_edge(e) && self.edge_at(e).node_ids@.contains(
                    self.nodes@[i].id,
                ),
    {
        assert forall|j: int, k: int|
            0 <= j < self.edges@.len() && 0 <= k < self.edges@[j].node_ids@.len() implies self.incident_edges(
            #[trigger] self.edges@[j].node_ids@[k]).contains(self.edges@[j].id) by {
            let nid = self.edges@[j].node_ids@[k];
            assert(self.has_node(nid));
            self.lemma_node_index(nid);
            let i = self.node_index_of(nid);
            assert(self.edge_links(self.edges@[j].id, nid));
            assert(self.node_to_edges@[i]@.contains(self.edges@[j].id));
        }
        assert forall|i: int, e: u128|
            0 <= i < self.nodes@.len() && #[trigger] self.node_to_edges@[i]@.contains(
                e,
            ) implies self.has_edge(e) && self.edge_at(e).node_ids@.contains(
            self.nodes@[i].id) by {
            assert(self.edge_links(e, self.nodes@[i].id));
            let j = choose|j: int|
                0 <= j < self.edges@.len() && (#[trigger] self.edges@[j]).id == e
                    && self.edges@[j].node_ids@.contains(self.nodes@[i].id);
            assert(self.has_edge(e));
            self.lemma_edge_index(e);
        }
    }

    /// Decides the store invariants: true exactly when the value is
    /// well formed.  A snapshot restored from outside can be held to
    /// the invariants before it is trusted; disagreement between the
    /// indices and the primary maps indicates corruption.
    pub fn check_invariants(&self) -> (r: bool)
        ensures
            r == self.wf(),
    {
        if self.nodes.len() > MAX_COUNT || self.edges.len() > MAX_COUNT {
            return false;
        }
        if self.node_to_edges.len() != self.nodes.len() || self.edge_to_nodes.len()
            != self.edges.len() {
            return false;
        }
        // Distinct node ids.
        let mut i: usize = 0;
        while i < self.nodes.len()
            invariant
                i <= self.nodes@.len(),
                forall|a: int, b: int|
                    0 <= a < b < self.nodes@.len() && a < i ==> (#[trigger] self.nodes@[a]).id
                        != (#[trigger] self.nodes@[b]).id,
            decreases self.nodes@.len() - i,
        {
            let mut b: usize = i + 1;
            while b < self.nodes.len()
                invariant
                    i < b <= self.nodes@.len(),
                    i < self.nodes@.len(),
                    forall|m: int|
                        i < m < b ==> (#[trigger] self.nodes@[m]).id != self.nodes@[i as int].id,
                decreases self.nodes@.len() - b,
            {
                if self.nodes[b].id == self.nodes[i].id {
                    return false;
                }
                b += 1;
            }
            i += 1;
        }
        // Distinct edge ids.
        let mut j: usize = 0;
        while j < self.edges.len()
            invariant
                j <= self.edges@.len(),
                forall|a: int, b: int|
                    0 <= a < b < self.edges@.len() && a < j ==> (#[trigger] self.edges@[a]).id
                        != (#[trigger] self.edges@[b]).id,
            decreases self.edges@.len() - j,
        {
            let mut b: usize = j + 1;
            while b < self.edges.len()
                invariant
                    j < b <= self.edges@.len(),
                    j < self.edges@.len(),
                    forall|m: int|
                        j < m < b ==> (#[trigger] self.edges@[m]).id != self.edges@[j as int].id,
                decreases self.edges@.len() - b,
            {
                if self.edges[b].id == self.edges[j].id {
                    return false;
                }
                b += 1;
            }
            j += 1;
        }
        // Scalar bounds of every node and edge.
        let mut i: usize = 0;
        while i < self.nodes.len()
            invariant
                i <= self.nodes@.len(),
                forall|k: int| 0 <= k < i ==> (#[trigger] self.nodes@[k]).wf(),
            decreases self.nodes@.len() - i,
        {
            if self.nodes[i].activation_level > MAX_LEVEL {
                return false;
            }
            i += 1;
        }
        let mut j: usize = 0;
        while j < self.edges.len()
            invariant
                j <= self.edges@.len(),
                forall|k: int| 0 <= k < j ==> (#[trigger] self.edges@[k]).wf(),
            decreases self.edges@.len() - j,
        {
            if self.edges[j].strength > ONE || self.edges[j].conductance > ONE
                || self.edges[j].weight_decay > ONE {
                return false;
            }
            j += 1;
        }
        // The edge index repeats each participant list, and every
        // participant is a stored node.
        let mut j: usize = 0;
        while j < self.edges.len()
            invariant
                j <= self.edges@.len(),
                self.edge_to_nodes@.len() == self.edges@.len(),
                forall|k: int|
                    0 <= k < j ==> (#[trigger] self.edge_to_nodes@[k])@
                        == self.edges@[k].node_ids@,
                forall|a: int, b: int|
                    0 <= a < j && 0 <= b < self.edges@[a].node_ids@.len() ==> self.has_node(
                        #[trigger] self.edges@[a].node_ids@[b],
                    ),
            decreases self.edges@.len() - j,
        {
            if !eq_ids(&self.edge_to_nodes[j], &self.edges[j].node_ids) {
                return false;
            }
            let mut k: usize = 0;
            while k < self.edges[j].node_ids.len()
                invariant
                    j < self.edges@.len(),
                    k <= self.edges@[j as int].node_ids@.len(),
                    forall|b: int|
                        0 <= b < k ==> self.has_node(
                            #[trigger] self.edges@[j as int].node_ids@[b],
                        ),
                decreases self.edges@[j as int].node_ids@.len() - k,
            {
                if self.find_node_index(self.edges[j].node_ids[k]).is_none() {
                    return false;
                }
                k += 1;
            }
            j += 1;
        }
        // Incident lists: duplicate-free, within the edge count, and
        // each listed id leads to an edge naming the node.
        let mut i: usize = 0;
        while i < self.node_to_edges.len()
            invariant
                self.wf_heads(),
                i <= self.node_to_edges@.len(),
                forall|k: int|
                    0 <= k < i ==> distinct_seq((#[trigger] self.node_to_edges@[k])@),
                forall|k: int|
                    0 <= k < i ==> (#[trigger] self.node_to_edges@[k])@.len()
                        <= self.edges@.len(),
                forall|k: int, e: u128|
                    #![trigger self.node_to_edges@[k]@.contains(e)]
                    0 <= k < i && self.node_to_edges@[k]@.contains(e) ==> self.edge_links(
                        e,
                        self.nodes@[k].id,
                    ),
            decreases self.node_to_edges@.len() - i,
        {
            if self.node_to_edges[i].len() > self.edges.len() {
                return false;
            }
            let mut a: usize = 0;
            while a < self.node_to_edges[i].len()
                invariant
                    self.wf_heads(),
                    i < self.node_to_edges@.len(),
                    i < self.nodes@.len(),
                    a <= self.node_to_edges@[i as int]@.len(),
                    forall|m: int, b: int|
                        0 <= m < b < self.node_to_edges@[i as int]@.len() && m < a ==> (
                        #[trigger] self.node_to_edges@[i as int]@[m]) != (
                        #[trigger] self.node_to_edges@[i as int]@[b]),
                    forall|m: int|
                        0 <= m < a ==> self.edge_links(
                            #[trigger] self.node_to_edges@[i as int]@[m],
                            self.nodes@[i as int].id,
                        ),
                decreases self.node_to_edges@[i as int]@.len() - a,
            {
                let e = self.node_to_edges[i][a];
                let mut b: usize = a + 1;
                while b < self.node_to_edges[i].len()
                    invariant
                        i < self.node_to_edges@.len(),
                        a < b <= self.node_to_edges@[i as int]@.len(),
                        e == self.node_to_edges@[i as int]@[a as int],
                        forall|m: int|
                            a < m < b ==> (#[trigger] self.node_to_edges@[i as int]@[m]) != e,
                    decreases self.node_to_edges@[i as int]@.len() - b,
                {
                    if self.node_to_edges[i][b] == e {
                        return false;
                    }
                    b += 1;
                }
                proof {
                    assert(self.node_to_edges@[i as int]@.contains(e)) by {
                        assert(self.node_to_edges@[i as int]@[a as int] == e);
                    }
                }
                match self.find_edge_index(e) {
                    Some(w) => {
                        if !ids_contain(&self.edges[w].node_ids, self.nodes[i].id) {
                            // The one edge under this id does not name
                            // the node, so no edge does.
                            proof {
                                if self.edge_links(e, self.nodes@[i as int].id) {
                                    let w2 = choose|w2: int|
                                        0 <= w2 < self.edges@.len() && (
                                        #[trigger] self.edges@[w2]).id == e
                                            && self.edges@[w2].node_ids@.contains(
                                            self.nodes@[i as int].id,
                                        );
                                    if w2 < w {
                                        assert(self.edges@[w2].id != self.edges@[w as int].id);
                                    } else if (w as int) < w2 {
                                        assert(self.edges@[w as int].id != self.edges@[w2].id);
                                    }
                                    assert(false);
                                }
                                assert(!self.wf());
                            }
                            return false;
                        }
                        proof {
                            assert(self.edge_links(e, self.nodes@[i as int].id));
                        }
                    },
                    None => {
                        proof {
                            if self.edge_links(e, self.nodes@[i as int].id) {
                                let w2 = choose|w2: int|
                                    0 <= w2 < self.edges@.len() && (
                                    #[trigger] self.edges@[w2]).id == e
                                        && self.edges@[w2].node_ids@.contains(
                                        self.nodes@[i as int].id,
                                    );
                                assert(self.has_edge(e));
                            }
                            assert(!self.wf());
                        }
                        return false;
                    },
                }
                a += 1;
            }
            i += 1;
        }
        // The converse: every stored edge is indexed under each of
        // its participants.
        let mut j: usize = 0;
        while j < self.edges.len()
            invariant
                self.wf_heads(),
                self.wf_links_forward(),
                j <= self.edges@.len(),
                forall|a: int, b: int|
                    0 <= a < j && 0 <= b < self.edges@[a].node_ids@.len()
                        ==> self.node_to_edges@[self.node_index_of(
                        #[trigger] self.edges@[a].node_ids@[b],
                    )]@.contains(self.edges@[a].id),
            decreases self.edges@.len() - j,
        {
            let mut k: usize = 0;
            while k < self.edges[j].node_ids.len()
                invariant
                    self.wf_heads(),
                    j < self.edges@.len(),
                    k <= self.edges@[j as int].node_ids@.len(),
                    forall|b: int|
                        0 <= b < k ==> self.node_to_edges@[self.node_index_of(
                            #[trigger] self.edges@[j as int].node_ids@[b],
                        )]@.contains(self.edges@[j as int].id),
                decreases self.edges@[j as int].node_ids@.len() - k,
            {
                let p = self.edges[j].node_ids[k];
                let w = match self.find_node_index(p) {
                    Some(w) => w,
                    None => {
                        proof {
                            assert(self.has_node(self.edges@[j as int].node_ids@[k as int]));
                            assert(false);
                        }
                        0
                    },
                };
                proof {
                    self.lemma_node_index_heads(p);
                    assert(w as int == self.node_index_of(p));
                }
                if !ids_contain(&self.node_to_edges[w], self.edges[j].id) {
                    proof {
                        // The edge names this node, so its id belongs
                        // in the node's incident list.
                        assert(self.edge_links(self.edges@[j as int].id, p)) by {
                            assert(self.edges@[j as int].node_ids@.contains(p)) by {
                                assert(self.edges@[j as int].node_ids@[k as int] == p);
                            }
                        }
                        assert(self.nodes@[w as int].id == p);
                        assert(!self.wf());
                    }
                    return false;
                }
                k += 1;
            }
            j += 1;
        }
        proof {
            assert forall|i2: int, e: u128|
                #![trigger self.node_to_edges@[i2]@.contains(e)]
                #![trigger self.edge_links(e, self.nodes@[i2].id)]
                0 <= i2 < self.nodes@.len() implies (self.node_to_edges@[i2]@.contains(e)
                <==> self.edge_links(e, self.nodes@[i2].id)) by {
                if self.edge_links(e, self.nodes@[i2].id) {
                    let w2 = choose|w2: int|
                        0 <= w2 < self.edges@.len() && (#[trigger] self.edges@[w2]).id == e
                            && self.edges@[w2].node_ids@.contains(self.nodes@[i2].id);
                    let b = choose|b: int|
                        0 <= b < self.edges@[w2].node_ids@.len()
                            && self.edges@[w2].node_ids@[b] == self.nodes@[i2].id;
                    self.lemma_node_index_heads(self.nodes@[i2].id);
                    assert(self.node_index_of(self.nodes@[i2].id) == i2);
                    assert(self.node_to_edges@[i2]@.contains(e));
                }
            }
            assert(self.wf());
        }
        true
    }

    /// The structural head of the invariants: sizes, parallel index
    /// lengths, distinct ids, scalar bounds, the repeated participant
    /// lists, and stored participants.
    pub open spec fn wf_heads(self) -> bool {
        &&& self.nodes@.len() <= MAX_COUNT
        &&& self.edges@.len() <= MAX_COUNT
        &&& self.node_to_edges@.len() == self.nodes@.len()
        &&& self.edge_to_nodes@.len() == self.edges@.len()
        &&& forall|i: int, j: int|
            0 <= i < j < self.nodes@.len() ==> (#[trigger] self.nodes@[i]).id != (
            #[trigger] self.nodes@[j]).id
        &&& forall|i: int, j: int|
            0 <= i < j < self.edges@.len() ==> (#[trigger] self.edges@[i]).id != (
            #[trigger] self.edges@[j]).id
        &&& forall|i: int| 0 <= i < self.nodes@.len() ==> (#[trigger] self.nodes@[i]).wf()
        &&& forall|j: int| 0 <= j < self.edges@.len() ==> (#[trigger] self.edges@[j]).wf()
        &&& forall|j: int|
            0 <= j < self.edges@.len() ==> (#[trigger] self.edge_to_nodes@[j])@
                == self.edges@[j].node_ids@
        &&& forall|j: int, k: int|
            0 <= j < self.edges@.len() && 0 <= k < self.edges@[j].node_ids@.len()
                ==> self.has_node(#[trigger] self.edges@[j].node_ids@[k])
    }

    /// Every indexed edge id leads to an edge naming the node, and the
    /// incident lists stay duplicate-free and bounded.
    pub open spec fn wf_links_forward(self) -> bool {
        &&& forall|i: int|
            0 <= i < self.nodes@.len() ==> distinct_seq((#[trigger] self.node_to_edges@[i])@)
        &&& forall|i: int|
            0 <= i < self.nodes@.len() ==> (#[trigger] self.node_to_edges@[i])@.len()
                <= self.edges@.len()
        &&& forall|i: int, e: u128|
            #![trigger self.node_to_edges@[i]@.contains(e)]
            0 <= i < self.nodes@.len() && self.node_to_edges@[i]@.contains(e)
                ==> self.edge_links(e, self.nodes@[i].id)
    }

    /// `lemma_node_index` again, from the structural head alone.
    proof fn lemma_node_index_heads(self, id: u128)
        requires
            self.wf_heads(),
            self.has_node(id),
        ensures
            0 <= self.node_index_of(id) < self.nodes@.len(),
            self.nodes@[self.node_index_of(id)].id == id,
            forall|i: int|
                0 <= i < self.nodes@.len() && (#[trigger] self.nodes@[i]).id == id ==> i
                    == self.node_index_of(id),
    {
        let w = self.node_index_of(id);
        assert(0 <= w < self.nodes@.len() && self.nodes@[w].id == id);
        assert forall|i: int|
            0 <= i < self.nodes@.len() && (#[trigger] self.nodes@[i]).id == id implies i == w by {
            if i < w {
                assert(self.nodes@[i].id != self.nodes@[w].id);
            } else if w < i {
                assert(self.nodes@[w].id != self.nodes@[i].id);
            }
        }
    }

    /// The stored nodes.
    pub fn nodes(&self) -> (r: &Vec<HyperNode>)
        ensures
            r@ == self.nodes@,
    {
        &self.nodes
    }

    /// The stored edges.
    pub fn edges(&self) -> (r: &Vec<HyperEdge>)
        ensures
            r@ == self.edges@,
    {
        &self.edges
    }
}

/// A node index reached only through participants before position `k`
/// keeps its entry when position `k` names a different node.
proof fn lemma_processed_same(gold: HyperGraph, pids: Seq<u128>, i2: int, i: int, k: int)
    requires
        gold.wf(),
        0 <= i2 < gold.nodes@.len(),
        0 <= i < gold.nodes@.len(),
        i2 != i,
        0 <= k < pids.len(),
        pids[k] == gold.nodes@[i].id,
    ensures
        (exists|m: int| 0 <= m < k + 1 && #[trigger] pids[m] == gold.nodes@[i2].id) == (exists|
            m: int,
        | 0 <= m < k && #[trigger] pids[m] == gold.nodes@[i2].id),
{
    if exists|m: int| 0 <= m < k + 1 && #[trigger] pids[m] == gold.nodes@[i2].id {
        let m = choose|m: int| 0 <= m < k + 1 && #[trigger] pids[m] == gold.nodes@[i2].id;
        if m == k {
            assert(gold.nodes@[i].id == gold.nodes@[i2].id);
            assert(false);
        }
    }
}

} // verus!
