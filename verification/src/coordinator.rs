//! Configuration of the database and the coordinator facade over the
//! store and the neural engine.

use vstd::prelude::*;

use crate::errors::GraphError;
use crate::fixed::{ONE, MAX_LEVEL};
use crate::hypergraph::{HyperGraph, copy_ids};
use crate::neural::SpikeProcessor;

verus! {

/// Relies on uuid::Uuid::new_v4 and Uuid::as_u128: a freshly drawn
/// random 128-bit identifier.  Nothing is promised of the value.
#[verifier::external_body]
fn fresh_id() -> (r: u128) {
    uuid::Uuid::new_v4().as_u128()
}

/// Relies on chrono::Utc::now and DateTime::timestamp_millis: the
/// wall clock as milliseconds since the Unix epoch.  Nothing is
/// promised of the value.
#[verifier::external_body]
fn now_millis() -> (r: u64) {
    chrono::Utc::now().timestamp_millis() as u64
}

/// Tunable parameters, consumed once at construction.
#[derive(Debug, Clone)]
pub struct DatabaseConfig {
    /// Where the persistence collaborator keeps its files.
    pub data_dir: String,
    /// Fixed-point activation level that counts as a spike.
    pub spike_threshold: u64,
    /// Fixed-point decay multiplier, at most [`ONE`].
    pub decay_rate: u64,
    /// How long a spiked node rejects further spikes, in milliseconds.
    pub refractory_period: u64,
    /// How many hops a cascade may travel.
    pub max_cascade_depth: usize,
    /// Seconds between background sync sweeps.
    pub sync_interval: u64,
}

impl DatabaseConfig {
    /// The bounds the engine needs of its parameters.
    pub open spec fn wf(self) -> bool {
        &&& self.decay_rate <= ONE
        &&& self.spike_threshold <= MAX_LEVEL
    }
}

impl Default for DatabaseConfig {
    /// The stock configuration: threshold 0.7, decay 0.99, refractory
    /// 100 ms, cascade depth 10, sync every 60 s.
    fn default() -> (c: DatabaseConfig)
        ensures
            c.wf(),
            c.data_dir@ == "./data"@,
            c.spike_threshold == 700_000,
            c.decay_rate == 990_000,
            c.refractory_period == 100,
            c.max_cascade_depth == 10,
            c.sync_interval == 60,
    {
        DatabaseConfig {
            data_dir: "./data".to_owned(),
            spike_threshold: 700_000,
            decay_rate: 990_000,
            refractory_period: 100,
            max_cascade_depth: 10,
            sync_interval: 60,
        }
    }
}

/// A point-in-time summary of the database.
#[derive(Debug, Clone, Copy)]
pub struct DatabaseStats {
    pub node_count: usize,
    pub edge_count: usize,
    pub total_spikes: u64,
    pub active_neurons: usize,
    /// Fixed-point mean activation.
    pub average_activation: u64,
}

/// The coordinator: the store and the neural engine behind one
/// interface.  Writes mutate the store, then notify the engine.
/// Persistence and transport live outside this crate and talk to it
/// through plain values.
#[derive(Debug, Clone)]
pub struct Database {
    pub graph: HyperGraph,
    pub neural: SpikeProcessor,
}

impl Database {
    /// Both halves are well formed.
    pub open spec fn wf(self) -> bool {
        &&& self.graph.wf()
        &&& self.neural.wf()
    }

    /// An empty database under the stock configuration.
    pub fn new() -> (db: Database)
        ensures
            db.wf(),
            db.graph.nodes@.len() == 0,
            db.graph.edges@.len() == 0,
            db.neural.neural_state.activations@.len() == 0,
            db.neural.neural_state.total_spikes == 0,
    {
        let config = DatabaseConfig::default();
        Database { graph: HyperGraph::new(), neural: SpikeProcessor::new(config, now_millis()) }
    }

    /// An empty database under the given configuration.
    pub fn with_config(config: DatabaseConfig) -> (db: Database)
        requires
            config.wf(),
        ensures
            db.wf(),
            db.graph.nodes@.len() == 0,
            db.graph.edges@.len() == 0,
            db.neural.config == config,
            db.neural.neural_state.total_spikes == 0,
    {
        Database { graph: HyperGraph::new(), neural: SpikeProcessor::new(config, now_millis()) }
    }

    /// Creates a node under a fresh random id, seeds its activation
    /// at zero, and returns the id.  Fails only if the drawn id
    /// collides with a stored one.
    pub fn add_node(&mut self, data: String) -> (r: Result<u128, GraphError>)
        requires
            old(self).wf(),
            old(self).graph.nodes@.len() < crate::hypergraph::MAX_COUNT,
        ensures
            final(self).wf(),
            match r {
                Ok(id) => {
                    &&& !old(self).graph.has_node(id)
                    &&& final(self).graph.has_node(id)
                    &&& final(self).graph.nodes@.len() == old(self).graph.nodes@.len() + 1
                    &&& forall|k: int|
                        0 <= k < old(self).graph.nodes@.len() ==> final(self).graph.nodes@[k]
                            == old(self).graph.nodes@[k]
                    &&& exists|t: u64|
                        HyperGraph::is_fresh_node(
                            #[trigger] final(self).graph.nodes@.last(),
                            id,
                            data,
                            t,
                        )
                    &&& final(self).graph.edges@ == old(self).graph.edges@
                    &&& final(self).neural.neural_state.activations@ == crate::neural::set_key(
                        old(self).neural.neural_state.activations@,
                        id,
                        0,
                    )
                },
                Err(GraphError::DuplicateId) => *final(self) == *old(self),
                Err(_) => false,
            },
    {
        let id = fresh_id();
        let now_ms = now_millis();
        match self.graph.add_node(id, data, now_ms) {
            Ok(()) => {
                self.neural.process_new_node(id);
                Ok(id)
            },
            Err(e) => Err(e),
        }
    }

    /// Creates a hyperedge under a fresh random id over existing
    /// nodes, then pulses one spike of the given strength through the
    /// participants.  Fails without mutating when a participant is
    /// unknown or the drawn id collides.
    pub fn connect_nodes(&mut self, node_ids: Vec<u128>, relationship: String, strength: u64) -> (r:
        Result<u128, GraphError>)
        requires
            old(self).wf(),
            old(self).graph.edges@.len() < crate::hypergraph::MAX_COUNT,
            node_ids@.len() >= 1,
            strength <= ONE,
        ensures
            final(self).wf(),
            match r {
                Ok(id) => {
                    &&& forall|k: int|
                        0 <= k < node_ids@.len() ==> old(self).graph.has_node(
                            #[trigger] node_ids@[k],
                        )
                    &&& !old(self).graph.has_edge(id)
                    &&& final(self).graph.has_edge(id)
                    &&& final(self).graph.nodes@ == old(self).graph.nodes@
                    &&& final(self).graph.edges@.len() == old(self).graph.edges@.len() + 1
                    &&& exists|t: u64|
                        HyperGraph::is_fresh_edge(
                            #[trigger] final(self).graph.edges@.last(),
                            id,
                            node_ids@,
                            relationship,
                            strength,
                            t,
                        )
                    &&& exists|t: u64|
                        {
                            &&& final(self).neural.neural_state.activations@ == (
                            #[trigger] crate::neural::spike_fold(
                                (
                                    old(self).neural.neural_state.activations@,
                                    old(self).neural.neural_state.refractory_until@,
                                    old(self).neural.neural_state.spike_history@,
                                    old(self).neural.neural_state.total_spikes as int,
                                ),
                                node_ids@,
                                strength,
                                t,
                                old(self).neural.config.refractory_period,
                            )).0
                            &&& final(self).neural.neural_state.refractory_until@
                                == crate::neural::spike_fold(
                                (
                                    old(self).neural.neural_state.activations@,
                                    old(self).neural.neural_state.refractory_until@,
                                    old(self).neural.neural_state.spike_history@,
                                    old(self).neural.neural_state.total_spikes as int,
                                ),
                                node_ids@,
                                strength,
                                t,
                                old(self).neural.config.refractory_period,
                            ).1
                            &&& final(self).neural.neural_state.spike_history@
                                == crate::neural::spike_fold(
                                (
                                    old(self).neural.neural_state.activations@,
                                    old(self).neural.neural_state.refractory_until@,
                                    old(self).neural.neural_state.spike_history@,
                                    old(self).neural.neural_state.total_spikes as int,
                                ),
                                node_ids@,
                                strength,
                                t,
                                old(self).neural.config.refractory_period,
                            ).2
                            &&& final(self).neural.neural_state.total_spikes
                                == crate::neural::spike_fold(
                                (
                                    old(self).neural.neural_state.activations@,
                                    old(self).neural.neural_state.refractory_until@,
                                    old(self).neural.neural_state.spike_history@,
                                    old(self).neural.neural_state.total_spikes as int,
                                ),
                                node_ids@,
                                strength,
                                t,
                                old(self).neural.config.refractory_period,
                            ).3
                        }
                },
                Err(GraphError::UnknownNode) => (exists|k: int|
                    0 <= k < node_ids@.len() && !old(self).graph.has_node(
                        #[trigger] node_ids@[k],
                    )) && *final(self) == *old(self),
                Err(GraphError::DuplicateId) => *final(self) == *old(self),
                Err(_) => false,
            },
    {
        let id = fresh_id();
        let now_ms = now_millis();
        let participants = copy_ids(&node_ids);
        match self.graph.add_hyperedge(id, node_ids, relationship, strength, now_ms) {
            Ok(()) => {
                self.neural.propagate_spike(participants, strength, now_ms);
                Ok(id)
            },
            Err(e) => Err(e),
        }
    }

    /// Every node scoring at least `threshold` against the target at
    /// this moment, sorted by score descending.
    pub fn find_similar(&self, node_id: u128, threshold: i64) -> (r: Vec<(u128, i64)>)
        requires
            self.wf(),
        ensures
            crate::neural::sorted_desc(r@),
            exists|t: u64|
                r@.to_multiset() == self.neural.similar_candidates(
                    self.graph,
                    node_id,
                    threshold,
                    t,
                ).to_multiset() && r@.len() == (#[trigger] self.neural.similar_candidates(
                    self.graph,
                    node_id,
                    threshold,
                    t,
                )).len(),
    {
        let now_ms = now_millis();
        let r = self.neural.find_similar_nodes(&self.graph, node_id, threshold, now_ms);
        proof {
            assert(r@.to_multiset() == self.neural.similar_candidates(
                self.graph,
                node_id,
                threshold,
                now_ms,
            ).to_multiset() && r@.len() == self.neural.similar_candidates(
                self.graph,
                node_id,
                threshold,
                now_ms,
            ).len());
        }
        r
    }

    /// Candidate pairings of active nodes, ranked by complementarity.
    pub fn discover_relationships(&self, max_results: usize) -> (r: Result<
        Vec<(u128, u128, u64)>,
        GraphError,
    >)
        requires
            self.wf(),
        ensures
            match r {
                Ok(v) => {
                    &&& self.neural.stable_matches(self.graph, max_results) is Ok
                    &&& ({
                        let m = self.neural.stable_matches(self.graph, max_results)->Ok_0;
                        if max_results == 0 {
                            v@.len() == 0
                        } else {
                            v@.to_multiset() == m.to_multiset() && v@.len() == m.len()
                                && crate::neural::sorted3_desc(v@)
                        }
                    })
                },
                Err(e) => self.neural.stable_matches(self.graph, max_results) == Err::<
                    Seq<(u128, u128, u64)>,
                    GraphError,
                >(e),
            },
    {
        self.neural.stable_matching(&self.graph, max_results)
    }

    /// The cascade a full-strength activation of the node would
    /// cause, source excluded.
    pub fn simulate_network_effect(&self, node_id: u128, activation_strength: u64) -> (r: Vec<
        (u128, u64),
    >)
        requires
            self.wf(),
            activation_strength <= MAX_LEVEL,
        ensures
            r@ == crate::traverse::effects_of(
                crate::traverse::cascade_frames(
                    self.graph,
                    self.neural.config.decay_rate,
                    self.neural.config.max_cascade_depth,
                    node_id,
                    activation_strength,
                ),
                node_id,
            ),
            forall|i: int| 0 <= i < r@.len() ==> (#[trigger] r@[i]).0 != node_id,
            forall|i: int, j: int|
                0 <= i < j < r@.len() ==> (#[trigger] r@[i]).0 != (#[trigger] r@[j]).0,
    {
        self.neural.simulate_cascade(&self.graph, node_id, activation_strength)
    }

    /// Store sizes and engine summary.
    pub fn stats(&self) -> (r: DatabaseStats)
        requires
            self.wf(),
        ensures
            r.node_count == self.graph.nodes@.len(),
            r.edge_count == self.graph.edges@.len(),
            r.total_spikes == self.neural.neural_state.total_spikes,
            r.active_neurons == self.neural.neural_state.activations@.filter(
                |p: (u128, u64)| p.1 > crate::neural::ACTIVE_LEVEL,
            ).len(),
            r.average_activation == if self.neural.neural_state.activations@.len() == 0 {
                0int
            } else {
                SpikeProcessor::acts_sum(self.neural.neural_state.activations@) / (
                self.neural.neural_state.activations@.len() as int)
            },
    {
        let neural_stats = self.neural.stats();
        DatabaseStats {
            node_count: self.graph.node_count(),
            edge_count: self.graph.edge_count(),
            total_spikes: neural_stats.total_spikes,
            active_neurons: neural_stats.active_neurons,
            average_activation: neural_stats.average_activation,
        }
    }
}

} // verus!
