//! The analytical layer: network-effect classification, goal
//! alignment, greedy pairing and centrality approximations.  It is
//! stateless and reads the store through its well-formed view.

use vstd::prelude::*;

use crate::errors::GraphError;
use crate::fixed::{ONE, MAX_LEVEL, fx_mul};
use crate::hypergraph::{HyperGraph, HyperNode};
use crate::neural::{shared_neighbor_count, lemma_shared_bounds, lemma_neighbors_len_bound};

verus! {

/// Per-hop attenuation of the effect analysis (0.9).
pub const HOP_RATE: u64 = 900_000;

/// The share of the total effect that makes its first receiver the
/// primary beneficiary (0.7).
pub const PRIMARY_SHARE: u64 = 700_000;

/// Total effect above which a broad cascade is synergistic (0.5).
pub const SYNERGY_TOTAL: u64 = 500_000;

/// Total effect below which a cascade is neutral (0.1).
pub const NEUTRAL_TOTAL: u64 = 100_000;

/// Alignment scores below this make a partner unacceptable (0.3).
pub const PAIR_MIN_SCORE: u64 = 300_000;

/// The natural logarithm of two, fixed-point.
pub const LN2: u64 = 693_147;

/// How a cascade's effect distributes over the network.
#[derive(Debug, Clone, Copy, PartialEq, Eq, Structural)]
pub enum EffectType {
    /// Positive network effects, broadly shared.
    Synergistic,
    /// Zero-sum effects.
    Competitive,
    /// One node benefits more than the rest.
    Asymmetric { primary_beneficiary: u128 },
    /// No significant effect.
    Neutral,
}

/// The outcome of a network-effect analysis.
#[derive(Debug, Clone)]
pub struct NetworkEffect {
    pub source_node: u128,
    /// Affected nodes with fixed-point effect strengths, source left
    /// out.
    pub affected_nodes: Vec<(u128, u64)>,
    pub total_effect: u64,
    pub cascade_depth: usize,
    pub effect_type: EffectType,
}

/// How far two nodes' goals agree.
#[derive(Debug, Clone, Copy, PartialEq, Eq, Structural)]
pub enum AlignmentType {
    /// Goals are completely aligned.
    Perfect,
    /// Goals are mostly aligned with some differences.
    High,
    /// Goals are partially aligned.
    Moderate,
    /// Goals conflict but could be negotiated.
    Conflicting,
    /// Goals are incompatible.
    Incompatible,
}

/// The outcome of a goal-alignment analysis.
#[derive(Debug, Clone)]
pub struct GoalAlignment {
    pub node1: u128,
    pub node2: u128,
    /// Fixed-point score in `[0, ONE]`.
    pub alignment_score: u64,
    pub alignment_type: AlignmentType,
    /// Fixed-point expected value, at most ten.
    pub potential_value: u64,
    pub risks: Vec<String>,
    pub opportunities: Vec<String>,
}

/// Centrality measures of one node.  `degree` is a plain count; the
/// other three are fixed-point scalars.
#[derive(Debug, Clone, Copy)]
pub struct CentralityMeasures {
    pub degree: u64,
    pub betweenness: u64,
    pub closeness: u64,
    pub eigenvector: u64,
}

/// The stateless analyzer.
pub struct NetworkAnalyzer;

/// True when some entry of `ts` reads `s`.
pub open spec fn contains_text(ts: Seq<String>, s: Seq<char>) -> bool {
    exists|j: int| 0 <= j < ts.len() && (#[trigger] ts[j])@ == s
}

/// How many entries of `t1` also occur in `t2`, by text.
pub open spec fn tag_match_count(t1: Seq<String>, t2: Seq<String>) -> int {
    t1.filter(|s: String| contains_text(t2, s@)).len() as int
}

/// True when some property of `props` is keyed `key`.
pub open spec fn has_prop_key(props: Seq<crate::hypergraph::PropEntry>, key: Seq<char>) -> bool {
    exists|j: int| 0 <= j < props.len() && (#[trigger] props[j]).key@ == key
}

/// How many property keys of `p1` also key `p2`.
pub open spec fn prop_key_match_count(
    p1: Seq<crate::hypergraph::PropEntry>,
    p2: Seq<crate::hypergraph::PropEntry>,
) -> int {
    p1.filter(|e: crate::hypergraph::PropEntry| has_prop_key(p2, e.key@)).len() as int
}

/// A shared count scaled against a total floored at one.
pub open spec fn floored_ratio(shared: int, total: int) -> int {
    shared * (ONE as int) / crate::fixed::max_int(total, 1)
}

impl NetworkAnalyzer {
    /// Structural alignment: the Jaccard overlap of the two
    /// neighbourhoods; two isolated nodes count as perfectly aligned.
    pub open spec fn structural_alignment_of(g: HyperGraph, n1: u128, n2: u128) -> int {
        let nb1 = g.neighbors_of(n1);
        let nb2 = g.neighbors_of(n2);
        if nb1.len() == 0 && nb2.len() == 0 {
            ONE as int
        } else {
            let shared = shared_neighbor_count(nb1, nb2);
            let total = nb1.len() + nb2.len() - shared;
            if total == 0 {
                ONE as int
            } else {
                shared * (ONE as int) / total
            }
        }
    }

    /// Semantic alignment: the mean of tag overlap, type equality and
    /// property-key overlap.
    pub open spec fn semantic_alignment_of(n1: HyperNode, n2: HyperNode) -> int {
        let tag_sim = floored_ratio(
            tag_match_count(n1.tags@, n2.tags@),
            n1.tags@.len() + n2.tags@.len() as int,
        );
        let type_sim: int = if n1.node_type@ == n2.node_type@ {
            ONE as int
        } else {
            0
        };
        let prop_sim = floored_ratio(
            prop_key_match_count(n1.properties@, n2.properties@),
            n1.properties@.len() + n2.properties@.len() as int,
        );
        (tag_sim + type_sim + prop_sim) / 3
    }

    /// Temporal alignment: both spiked or neither spiked scores 0.8,
    /// otherwise 0.2.
    pub open spec fn temporal_alignment_of(n1: HyperNode, n2: HyperNode) -> int {
        if (n1.last_spike_time is Some) == (n2.last_spike_time is Some) {
            800_000
        } else {
            200_000
        }
    }

    /// The combined alignment score of two stored nodes.
    pub open spec fn alignment_score_of(g: HyperGraph, n1: u128, n2: u128) -> int {
        let st = Self::structural_alignment_of(g, n1, n2);
        let se = Self::semantic_alignment_of(g.node_at(n1), g.node_at(n2));
        let te = Self::temporal_alignment_of(g.node_at(n1), g.node_at(n2));
        (4 * st + 4 * se + 2 * te) / 10
    }

    /// The class a score falls into.
    pub open spec fn classify_alignment(score: int) -> AlignmentType {
        if score >= 800_000 {
            AlignmentType::Perfect
        } else if score >= 600_000 {
            AlignmentType::High
        } else if score >= 400_000 {
            AlignmentType::Moderate
        } else if score >= 200_000 {
            AlignmentType::Conflicting
        } else {
            AlignmentType::Incompatible
        }
    }

    /// The expected value a class puts on a score.
    pub open spec fn potential_value_of(a: AlignmentType, score: int) -> int {
        match a {
            AlignmentType::Perfect => score * 10,
            AlignmentType::High => score * 7,
            AlignmentType::Moderate => score * 4,
            AlignmentType::Conflicting => score * 2,
            AlignmentType::Incompatible => 0,
        }
    }

    /// The canned risk and opportunity texts of each class.
    pub open spec fn texts_for(a: AlignmentType, risks: Seq<String>, opps: Seq<String>) -> bool {
        match a {
            AlignmentType::Perfect => {
                &&& opps.len() == 2
                &&& opps[0]@ == "High synergy potential"@
                &&& opps[1]@ == "Mutual benefit optimization"@
                &&& risks.len() == 1
                &&& risks[0]@ == "Over-dependence risk"@
            },
            AlignmentType::High => {
                &&& opps.len() == 1
                &&& opps[0]@ == "Strong collaboration potential"@
                &&& risks.len() == 1
                &&& risks[0]@ == "Minor goal conflicts to resolve"@
            },
            AlignmentType::Moderate => {
                &&& opps.len() == 1
                &&& opps[0]@ == "Partial collaboration possible"@
                &&& risks.len() == 1
                &&& risks[0]@ == "Significant alignment work needed"@
            },
            AlignmentType::Conflicting => {
                &&& opps.len() == 1
                &&& opps[0]@ == "Negotiation and compromise potential"@
                &&& risks.len() == 2
                &&& risks[0]@ == "High coordination costs"@
                &&& risks[1]@ == "Potential for disputes"@
            },
            AlignmentType::Incompatible => {
                &&& opps.len() == 0
                &&& risks.len() == 2
                &&& risks[0]@ == "Fundamental incompatibility"@
                &&& risks[1]@ == "Likely negative outcomes"@
            },
        }
    }

    /// True of exactly the alignment the analyzer reports for a pair
    /// of stored nodes.
    pub open spec fn is_alignment_result(g: HyperGraph, al: GoalAlignment) -> bool {
        let score = Self::alignment_score_of(g, al.node1, al.node2);
        &&& g.has_node(al.node1)
        &&& g.has_node(al.node2)
        &&& al.alignment_score == score
        &&& al.alignment_type == Self::classify_alignment(score)
        &&& al.potential_value == Self::potential_value_of(al.alignment_type, score)
        &&& Self::texts_for(al.alignment_type, al.risks@, al.opportunities@)
    }

    /// An alignment score lies in `[0, ONE]`.
    pub proof fn lemma_alignment_score_bounds(g: HyperGraph, n1: u128, n2: u128)
        requires
            g.wf(),
        ensures
            0 <= Self::alignment_score_of(g, n1, n2) <= ONE as int,
    {
        let nb1 = g.neighbors_of(n1);
        let nb2 = g.neighbors_of(n2);
        g.lemma_neighbors_of(n1);
        g.lemma_neighbors_of(n2);
        lemma_shared_bounds(nb1, nb2);
        let st = Self::structural_alignment_of(g, n1, n2);
        assert(0 <= st <= ONE as int) by {
            if !(nb1.len() == 0 && nb2.len() == 0) {
                let shared = shared_neighbor_count(nb1, nb2);
                let total = nb1.len() + nb2.len() - shared;
                if total > 0 {
                    assert(0 <= shared * (ONE as int) / total <= ONE as int) by (nonlinear_arith)
                        requires
                            0 <= shared <= total,
                            total > 0,
                    ;
                }
            }
        }
        let m = g.node_at(n1);
        let o = g.node_at(n2);
        let se = Self::semantic_alignment_of(m, o);
        assert(0 <= se <= ONE as int) by {
            Self::lemma_semantic_bounds(m, o);
        }
        let te = Self::temporal_alignment_of(m, o);
        assert(0 <= te <= ONE as int);
        assert(0 <= (4 * st + 4 * se + 2 * te) / 10 <= ONE as int);
    }

    /// Counts the tags of `t1` that also appear in `t2`.
    fn count_tag_matches(t1: &Vec<String>, t2: &Vec<String>) -> (r: usize)
        ensures
            r == tag_match_count(t1@, t2@),
            r <= t1@.len(),
    {
        let ghost pred = |s: String| contains_text(t2@, s@);
        let mut r: usize = 0;
        let mut i: usize = 0;
        while i < t1.len()
            invariant
                i <= t1@.len(),
                pred == (|s: String| contains_text(t2@, s@)),
                r == t1@.take(i as int).filter(pred).len(),
                r <= i,
            decreases t1@.len() - i,
        {
            proof {
                assert(t1@.take(i + 1).drop_last() =~= t1@.take(i as int));
                assert(t1@.take(i + 1).last() == t1@[i as int]);
                reveal(Seq::filter);
            }
            let mut hit = false;
            let mut j: usize = 0;
            while j < t2.len()
                invariant
                    j <= t2@.len(),
                    i < t1@.len(),
                    hit ==> contains_text(t2@, t1@[i as int]@),
                    !hit ==> forall|m: int| 0 <= m < j ==> (#[trigger] t2@[m])@ != t1@[i as int]@,
                ensures
                    hit == contains_text(t2@, t1@[i as int]@),
                decreases t2@.len() - j,
            {
                if t2[j] == t1[i] {
                    hit = true;
                    proof {
                        assert(t2@[j as int]@ == t1@[i as int]@);
                    }
                    break ;
                }
                j += 1;
            }
            if hit {
                r += 1;
            } else {
                proof {
                    assert(!contains_text(t2@, t1@[i as int]@));
                }
            }
            i += 1;
        }
        proof {
            assert(t1@.take(t1@.len() as int) =~= t1@);
        }
        r
    }

    /// Counts the property keys of `p1` that also key `p2`.
    fn count_prop_key_matches(
        p1: &Vec<crate::hypergraph::PropEntry>,
        p2: &Vec<crate::hypergraph::PropEntry>,
    ) -> (r: usize)
        ensures
            r == prop_key_match_count(p1@, p2@),
            r <= p1@.len(),
    {
        let ghost pred = |e: crate::hypergraph::PropEntry| has_prop_key(p2@, e.key@);
        let mut r: usize = 0;
        let mut i: usize = 0;
        while i < p1.len()
            invariant
                i <= p1@.len(),
                pred == (|e: crate::hypergraph::PropEntry| has_prop_key(p2@, e.key@)),
                r == p1@.take(i as int).filter(pred).len(),
                r <= i,
            decreases p1@.len() - i,
        {
            proof {
                assert(p1@.take(i + 1).drop_last() =~= p1@.take(i as int));
                assert(p1@.take(i + 1).last() == p1@[i as int]);
                reveal(Seq::filter);
            }
            let mut hit = false;
            let mut j: usize = 0;
            while j < p2.len()
                invariant
                    j <= p2@.len(),
                    i < p1@.len(),
                    hit ==> has_prop_key(p2@, p1@[i as int].key@),
                    !hit ==> forall|m: int|
                        0 <= m < j ==> (#[trigger] p2@[m]).key@ != p1@[i as int].key@,
                ensures
                    hit == has_prop_key(p2@, p1@[i as int].key@),
                decreases p2@.len() - j,
            {
                if p2[j].key == p1[i].key {
                    hit = true;
                    proof {
                        assert(p2@[j as int].key@ == p1@[i as int].key@);
                    }
                    break ;
                }
                j += 1;
            }
            if hit {
                r += 1;
            } else {
                proof {
                    assert(!has_prop_key(p2@, p1@[i as int].key@));
                }
            }
            i += 1;
        }
        proof {
            assert(p1@.take(p1@.len() as int) =~= p1@);
        }
        r
    }

    /// Computes [`Self::alignment_score_of`] for two stored nodes.
    fn alignment_score_exec(graph: &HyperGraph, n1: u128, n2: u128) -> (r: u64)
        requires
            graph.wf(),
            graph.has_node(n1),
            graph.has_node(n2),
        ensures
            r == Self::alignment_score_of(*graph, n1, n2),
            r <= ONE,
    {
        proof {
            Self::lemma_alignment_score_bounds(*graph, n1, n2);
        }
        let nb1 = graph.get_neighbors(n1);
        let nb2 = graph.get_neighbors(n2);
        let shared = crate::neural::count_shared(&nb1, &nb2);
        proof {
            graph.lemma_neighbors_of(n1);
            graph.lemma_neighbors_of(n2);
            lemma_shared_bounds(nb1@, nb2@);
            lemma_neighbors_len_bound(*graph, n1);
            lemma_neighbors_len_bound(*graph, n2);
        }
        let st: u64 = if nb1.len() == 0 && nb2.len() == 0 {
            ONE
        } else {
            let total: usize = nb1.len() + nb2.len() - shared;
            if total == 0 {
                ONE
            } else {
                let q: u128 = (shared as u128) * (ONE as u128) / (total as u128);
                proof {
                    assert((shared as int) * (ONE as int) / (total as int) <= ONE as int)
                        by (nonlinear_arith)
                        requires
                            0 <= shared as int <= total as int,
                            total as int > 0,
                    ;
                }
                q as u64
            }
        };
        let node1 = match graph.get_node(n1) {
            Some(n) => n,
            None => vstd::pervasive::unreached(),
        };
        let node2 = match graph.get_node(n2) {
            Some(n) => n,
            None => vstd::pervasive::unreached(),
        };
        let tags_shared = Self::count_tag_matches(&node1.tags, &node2.tags);
        let tag_total: u128 = (node1.tags.len() as u128) + (node2.tags.len() as u128);
        let tag_sim: u64 = {
            let denom: u128 = if tag_total >= 1 {
                tag_total
            } else {
                1
            };
            let q: u128 = (tags_shared as u128) * (ONE as u128) / denom;
            proof {
                assert((tags_shared as int) * (ONE as int) / (denom as int) <= ONE as int)
                    by (nonlinear_arith)
                    requires
                        0 <= tags_shared as int <= denom as int,
                        denom as int >= 1,
                ;
                assert(q == floored_ratio(
                    tag_match_count(node1.tags@, node2.tags@),
                    node1.tags@.len() + node2.tags@.len() as int,
                ));
            }
            q as u64
        };
        let type_sim: u64 = if node1.node_type == node2.node_type {
            ONE
        } else {
            0
        };
        let props_shared = Self::count_prop_key_matches(&node1.properties, &node2.properties);
        let prop_total: u128 = (node1.properties.len() as u128) + (
        node2.properties.len() as u128);
        let prop_sim: u64 = {
            let denom: u128 = if prop_total >= 1 {
                prop_total
            } else {
                1
            };
            let q: u128 = (props_shared as u128) * (ONE as u128) / denom;
            proof {
                assert((props_shared as int) * (ONE as int) / (denom as int) <= ONE as int)
                    by (nonlinear_arith)
                    requires
                        0 <= props_shared as int <= denom as int,
                        denom as int >= 1,
                ;
                assert(q == floored_ratio(
                    prop_key_match_count(node1.properties@, node2.properties@),
                    node1.properties@.len() + node2.properties@.len() as int,
                ));
            }
            q as u64
        };
        let se: u64 = (tag_sim + type_sim + prop_sim) / 3;
        let te: u64 = if node1.last_spike_time.is_some() == node2.last_spike_time.is_some() {
            800_000
        } else {
            200_000
        };
        (4 * st + 4 * se + 2 * te) / 10
    }

    /// Analyzes the goal alignment of two stored nodes: the weighted
    /// structural, semantic and temporal scores, the class they fall
    /// into, its expected value and its canned texts.  Fails when
    /// either node is unknown.
    pub fn analyze_goal_alignment(graph: &HyperGraph, node1: u128, node2: u128) -> (r: Result<
        GoalAlignment,
        GraphError,
    >)
        requires
            graph.wf(),
        ensures
            match r {
                Ok(al) => graph.has_node(node1) && graph.has_node(node2) && al.node1 == node1
                    && al.node2 == node2 && Self::is_alignment_result(*graph, al),
                Err(GraphError::UnknownNode) => !graph.has_node(node1) || !graph.has_node(
                    node2,
                ),
                Err(_) => false,
            },
    {
        if graph.get_node(node1).is_none() || graph.get_node(node2).is_none() {
            return Err(GraphError::UnknownNode);
        }
        let score = Self::alignment_score_exec(graph, node1, node2);
        let alignment_type = if score >= 800_000 {
            AlignmentType::Perfect
        } else if score >= 600_000 {
            AlignmentType::High
        } else if score >= 400_000 {
            AlignmentType::Moderate
        } else if score >= 200_000 {
            AlignmentType::Conflicting
        } else {
            AlignmentType::Incompatible
        };
        let potential_value: u64 = match alignment_type {
            AlignmentType::Perfect => score * 10,
            AlignmentType::High => score * 7,
            AlignmentType::Moderate => score * 4,
            AlignmentType::Conflicting => score * 2,
            AlignmentType::Incompatible => 0,
        };
        let mut risks: Vec<String> = Vec::new();
        let mut opportunities: Vec<String> = Vec::new();
        match alignment_type {
            AlignmentType::Perfect => {
                opportunities.push("High synergy potential".to_owned());
                opportunities.push("Mutual benefit optimization".to_owned());
                risks.push("Over-dependence risk".to_owned());
            },
            AlignmentType::High => {
                opportunities.push("Strong collaboration potential".to_owned());
                risks.push("Minor goal conflicts to resolve".to_owned());
            },
            AlignmentType::Moderate => {
                opportunities.push("Partial collaboration possible".to_owned());
                risks.push("Significant alignment work needed".to_owned());
            },
            AlignmentType::Conflicting => {
                opportunities.push("Negotiation and compromise potential".to_owned());
                risks.push("High coordination costs".to_owned());
                risks.push("Potential for disputes".to_owned());
            },
            AlignmentType::Incompatible => {
                risks.push("Fundamental incompatibility".to_owned());
                risks.push("Likely negative outcomes".to_owned());
            },
        }
        Ok(
            GoalAlignment {
                node1,
                node2,
                alignment_score: score,
                alignment_type,
                potential_value,
                risks,
                opportunities,
            },
        )
    }

    /// The sum of the effect strengths.
    pub open spec fn sum_effects(s: Seq<(u128, u64)>) -> int
        decreases s.len(),
    {
        if s.len() == 0 {
            0
        } else {
            Self::sum_effects(s.drop_last()) + s.last().1
        }
    }

    /// The deepest hop a traversal reached, zero when nothing was
    /// visited.
    pub open spec fn max_depth_of(fs: Seq<crate::traverse::Frame>) -> int
        decreases fs.len(),
    {
        if fs.len() == 0 {
            0
        } else {
            crate::fixed::max_int(Self::max_depth_of(fs.drop_last()), fs.last().depth as int)
        }
    }

    /// The class a cascade's effect pattern falls into.
    pub open spec fn classify_spec(affected: Seq<(u128, u64)>, total: int) -> EffectType {
        if total > SYNERGY_TOTAL as int && affected.len() > 2 {
            EffectType::Synergistic
        } else if total < NEUTRAL_TOTAL as int {
            EffectType::Neutral
        } else if affected.len() > 0 {
            if affected[0].1 > fx_mul(total, PRIMARY_SHARE as int) {
                EffectType::Asymmetric { primary_beneficiary: affected[0].0 }
            } else {
                EffectType::Competitive
            }
        } else {
            EffectType::Neutral
        }
    }

    /// Walks the cascade from `source_node` with a 0.9 per-hop decay,
    /// totals the effect, and classifies the pattern.
    pub fn analyze_network_effects(
        graph: &HyperGraph,
        source_node: u128,
        activation_strength: u64,
        max_depth: usize,
    ) -> (r: NetworkEffect)
        requires
            graph.wf(),
            activation_strength <= MAX_LEVEL,
        ensures
            ({
                let fs = crate::traverse::cascade_frames(
                    *graph,
                    HOP_RATE,
                    max_depth,
                    source_node,
                    activation_strength,
                );
                let affected = crate::traverse::effects_of(fs, source_node);
                &&& r.source_node == source_node
                &&& r.affected_nodes@ == affected
                &&& r.total_effect == Self::sum_effects(affected)
                &&& r.cascade_depth == Self::max_depth_of(fs)
                &&& r.effect_type == Self::classify_spec(
                    affected,
                    Self::sum_effects(affected),
                )
            }),
    {
        let frames = crate::traverse::run_traversal(
            graph,
            source_node,
            activation_strength,
            HOP_RATE,
            max_depth,
        );
        proof {
            crate::traverse::lemma_cascade_props(
                *graph,
                HOP_RATE,
                max_depth,
                source_node,
                activation_strength,
            );
            crate::traverse::lemma_effects_props(frames@, source_node);
            frames@.lemma_filter_len(
                |f: crate::traverse::Frame| f.id != source_node,
            );
        }
        let affected = crate::traverse::collect_effects(&frames, source_node);
        let ghost frame_count = frames@.len() as int;
        proof {
            assert forall|k: int|
                0 <= k < affected@.len() implies (#[trigger] affected@[k]).1 <= MAX_LEVEL by {
                let w = choose|w: int|
                    0 <= w < frames@.len() && (#[trigger] frames@[w]).id == affected@[k].0
                        && frames@[w].strength == affected@[k].1;
                assert(frames@[w].strength <= MAX_LEVEL);
            }
        }
        let mut total: u64 = 0;
        let mut i: usize = 0;
        while i < affected.len()
            invariant
                i <= affected@.len(),
                affected@.len() <= frame_count,
                frame_count <= graph.nodes@.len() + 1,
                graph.nodes@.len() <= crate::hypergraph::MAX_COUNT,
                forall|k: int|
                    0 <= k < affected@.len() ==> (#[trigger] affected@[k]).1 <= MAX_LEVEL,
                total == Self::sum_effects(affected@.take(i as int)),
                total <= (i as int) * (MAX_LEVEL as int),
            decreases affected@.len() - i,
        {
            proof {
                assert(affected@.take(i + 1).drop_last() =~= affected@.take(i as int));
                assert(affected@.take(i + 1).last() == affected@[i as int]);
                assert((i as int) * (MAX_LEVEL as int) + (MAX_LEVEL as int) == (i + 1) * (
                MAX_LEVEL as int)) by (nonlinear_arith);
                assert((i + 1) * (MAX_LEVEL as int) <= ((crate::hypergraph::MAX_COUNT + 1) as int)
                    * (MAX_LEVEL as int)) by (nonlinear_arith)
                    requires
                        0 <= i + 1 <= (crate::hypergraph::MAX_COUNT + 1) as int,
                ;
            }
            total = total + affected[i].1;
            i += 1;
        }
        proof {
            assert(affected@.take(affected@.len() as int) =~= affected@);
        }
        let mut cascade_depth: usize = 0;
        let mut k: usize = 0;
        while k < frames.len()
            invariant
                k <= frames@.len(),
                cascade_depth == Self::max_depth_of(frames@.take(k as int)),
            decreases frames@.len() - k,
        {
            proof {
                assert(frames@.take(k + 1).drop_last() =~= frames@.take(k as int));
                assert(frames@.take(k + 1).last() == frames@[k as int]);
            }
            if frames[k].depth > cascade_depth {
                cascade_depth = frames[k].depth;
            }
            k += 1;
        }
        proof {
            assert(frames@.take(frames@.len() as int) =~= frames@);
        }
        let effect_type = Self::classify_effect_type(&affected, total);
        NetworkEffect {
            source_node,
            affected_nodes: affected,
            total_effect: total,
            cascade_depth,
            effect_type,
        }
    }

    /// Classifies an effect pattern: a strong broad cascade is
    /// synergistic, a negligible total is neutral, a dominant first
    /// receiver is asymmetric, anything else competitive.
    fn classify_effect_type(affected: &Vec<(u128, u64)>, total: u64) -> (r: EffectType)
        ensures
            r == Self::classify_spec(affected@, total as int),
    {
        if total > SYNERGY_TOTAL && affected.len() > 2 {
            EffectType::Synergistic
        } else if total < NEUTRAL_TOTAL {
            EffectType::Neutral
        } else if affected.len() > 0 {
            let first = affected[0];
            let share: u128 = (total as u128) * (PRIMARY_SHARE as u128) / (ONE as u128);
            proof {
                assert(share == fx_mul(total as int, PRIMARY_SHARE as int));
            }
            if (first.1 as u128) > share {
                EffectType::Asymmetric { primary_beneficiary: first.0 }
            } else {
                EffectType::Competitive
            }
        } else {
            EffectType::Neutral
        }
    }

    /// Stable descending insertion: a new entry passes only entries
    /// it strictly beats, so equals keep their earlier order.
    pub open spec fn insert_pref(s: Seq<(u128, u64)>, x: (u128, u64)) -> Seq<(u128, u64)>
        decreases s.len(),
    {
        if s.len() == 0 {
            seq![x]
        } else if x.1 > s[0].1 {
            seq![x] + s
        } else {
            seq![s[0]] + Self::insert_pref(s.drop_first(), x)
        }
    }

    /// The stable descending sort of a preference list.
    pub open spec fn sort_prefs(s: Seq<(u128, u64)>) -> Seq<(u128, u64)>
        decreases s.len(),
    {
        if s.len() == 0 {
            Seq::empty()
        } else {
            Self::insert_pref(Self::sort_prefs(s.drop_last()), s.last())
        }
    }

    /// Membership test of a candidate's preference list: any other
    /// candidate, both ends stored.
    pub open spec fn pref_pred(g: HyperGraph, c: u128) -> spec_fn(u128) -> bool {
        |o: u128| o != c && g.has_node(o) && g.has_node(c)
    }

    /// A partner with its alignment score.
    pub open spec fn pref_entry(g: HyperGraph, c: u128) -> spec_fn(u128) -> (u128, u64) {
        |o: u128| (o, Self::alignment_score_of(g, c, o) as u64)
    }

    /// The scored partners a candidate would rank: every other
    /// candidate that the store holds, in input order, with the
    /// alignment score.
    pub open spec fn pref_raw(g: HyperGraph, c: u128, candidates: Seq<u128>) -> Seq<(u128, u64)> {
        candidates.filter(Self::pref_pred(g, c)).map_values(Self::pref_entry(g, c))
    }

    /// A candidate's ranked preference list.
    pub open spec fn prefs_of(g: HyperGraph, c: u128, candidates: Seq<u128>) -> Seq<(u128, u64)> {
        Self::sort_prefs(Self::pref_raw(g, c, candidates))
    }

    /// The first unmatched partner whose score beats the floor.
    pub open spec fn first_partner(prefs: Seq<(u128, u64)>, matched: Set<u128>) -> Option<u128>
        decreases prefs.len(),
    {
        if prefs.len() == 0 {
            None
        } else if !matched.contains(prefs[0].0) && prefs[0].1 > PAIR_MIN_SCORE {
            Some(prefs[0].0)
        } else {
            Self::first_partner(prefs.drop_first(), matched)
        }
    }

    /// The potential value of the alignment of a stored pair, as the
    /// analyzer reports it.
    pub open spec fn pair_potential(g: HyperGraph, c: u128, p: u128) -> int {
        let score = Self::alignment_score_of(g, c, p);
        Self::potential_value_of(Self::classify_alignment(score), score)
    }

    /// Greedy input-order pairing: each yet-unmatched candidate takes
    /// the best unmatched partner its preference list accepts, and
    /// collection stops once `max_pairs` pairs are in hand.
    pub open spec fn greedy_triples(
        g: HyperGraph,
        candidates: Seq<u128>,
        i: int,
        matched: Set<u128>,
        acc: Seq<(u128, u128, u64)>,
        max_pairs: usize,
    ) -> Seq<(u128, u128, u64)>
        decreases candidates.len() - i,
        when 0 <= i
    {
        if i >= candidates.len() {
            acc
        } else {
            let c = candidates[i];
            if matched.contains(c) {
                Self::greedy_triples(g, candidates, i + 1, matched, acc, max_pairs)
            } else {
                match Self::first_partner(Self::prefs_of(g, c, candidates), matched) {
                    Some(p) => {
                        let acc2 = acc.push((c, p, Self::pair_potential(g, c, p) as u64));
                        let matched2 = matched.insert(c).insert(p);
                        if acc2.len() >= max_pairs {
                            acc2
                        } else {
                            Self::greedy_triples(g, candidates, i + 1, matched2, acc2, max_pairs)
                        }
                    },
                    None => {
                        if acc.len() >= max_pairs {
                            acc
                        } else {
                            Self::greedy_triples(g, candidates, i + 1, matched, acc, max_pairs)
                        }
                    },
                }
            }
        }
    }

    /// What the greedy pass of `find_optimal_pairs` collects.
    pub open spec fn optimal_triples(g: HyperGraph, candidates: Seq<u128>, max_pairs: usize) -> Seq<
        (u128, u128, u64),
    > {
        Self::greedy_triples(g, candidates, 0, Set::empty(), Seq::empty(), max_pairs)
    }

    /// Whatever the sort order, an entry of a preference list came
    /// from the unsorted one.
    pub proof fn lemma_insert_pref_contains(s: Seq<(u128, u64)>, x: (u128, u64), y: (u128, u64))
        ensures
            Self::insert_pref(s, x).contains(y) <==> (s.contains(y) || y == x),
        decreases s.len(),
    {
        let out = Self::insert_pref(s, x);
        if s.len() == 0 {
            assert(out =~= seq![x]);
            assert(out.contains(y) <==> y == x) by {
                if out.contains(y) {
                    let w = choose|w: int| 0 <= w < out.len() && out[w] == y;
                    assert(w == 0);
                }
                if y == x {
                    assert(out[0] == y);
                }
            }
            assert(!s.contains(y)) by {
                if s.contains(y) {
                    let w = choose|w: int| 0 <= w < s.len() && s[w] == y;
                }
            }
        } else if x.1 > s[0].1 {
            assert(out == seq![x] + s);
            assert(out.contains(y) <==> (s.contains(y) || y == x)) by {
                if out.contains(y) {
                    let w = choose|w: int| 0 <= w < out.len() && out[w] == y;
                    if w == 0 {
                        assert(y == x);
                    } else {
                        assert(s[w - 1] == y);
                        assert(s.contains(y));
                    }
                }
                if y == x {
                    assert(out[0] == y);
                }
                if s.contains(y) {
                    let w = choose|w: int| 0 <= w < s.len() && s[w] == y;
                    assert(out[w + 1] == y);
                }
            }
        } else {
            Self::lemma_insert_pref_contains(s.drop_first(), x, y);
            let sub = Self::insert_pref(s.drop_first(), x);
            assert(out == seq![s[0]] + sub);
            assert(out.contains(y) <==> (s.contains(y) || y == x)) by {
                if out.contains(y) {
                    let w = choose|w: int| 0 <= w < out.len() && out[w] == y;
                    if w == 0 {
                        assert(s[0] == y);
                        assert(s.contains(y));
                    } else {
                        assert(sub[w - 1] == y);
                        assert(sub.contains(y));
                        if s.drop_first().contains(y) {
                            let v = choose|v: int|
                                0 <= v < s.drop_first().len() && s.drop_first()[v] == y;
                            assert(s[v + 1] == y);
                            assert(s.contains(y));
                        }
                    }
                }
                if y == x {
                    assert(sub.contains(y));
                    let w = choose|w: int| 0 <= w < sub.len() && sub[w] == y;
                    assert(out[w + 1] == y);
                }
                if s.contains(y) {
                    let w = choose|w: int| 0 <= w < s.len() && s[w] == y;
                    if w == 0 {
                        assert(out[0] == y);
                    } else {
                        assert(s.drop_first()[w - 1] == y);
                        assert(s.drop_first().contains(y));
                        assert(sub.contains(y));
                        let v = choose|v: int| 0 <= v < sub.len() && sub[v] == y;
                        assert(out[v + 1] == y);
                    }
                }
            }
        }
    }

    /// Sorting a preference list neither adds nor drops entries.
    pub proof fn lemma_sort_prefs_contains(s: Seq<(u128, u64)>, y: (u128, u64))
        ensures
            Self::sort_prefs(s).contains(y) <==> s.contains(y),
        decreases s.len(),
    {
        if s.len() == 0 {
            if s.contains(y) {
                let w = choose|w: int| 0 <= w < s.len() && s[w] == y;
            }
            if Self::sort_prefs(s).contains(y) {
                let w = choose|w: int|
                    0 <= w < Self::sort_prefs(s).len() && Self::sort_prefs(s)[w] == y;
            }
        } else {
            Self::lemma_sort_prefs_contains(s.drop_last(), y);
            Self::lemma_insert_pref_contains(Self::sort_prefs(s.drop_last()), s.last(), y);
            assert(s.contains(y) <==> (s.drop_last().contains(y) || y == s.last())) by {
                if s.contains(y) {
                    let w = choose|w: int| 0 <= w < s.len() && s[w] == y;
                    if w < s.len() - 1 {
                        assert(s.drop_last()[w] == y);
                        assert(s.drop_last().contains(y));
                    }
                }
                if s.drop_last().contains(y) {
                    let w = choose|w: int| 0 <= w < s.drop_last().len() && s.drop_last()[w] == y;
                    assert(s[w] == y);
                }
                if y == s.last() {
                    assert(s[s.len() - 1] == y);
                }
            }
        }
    }

    /// A partner the scan accepts stands in the preference list.
    pub proof fn lemma_first_partner_member(prefs: Seq<(u128, u64)>, matched: Set<u128>)
        ensures
            Self::first_partner(prefs, matched) is Some ==> exists|w: int|
                0 <= w < prefs.len() && (#[trigger] prefs[w]).0 == Self::first_partner(
                    prefs,
                    matched,
                )->Some_0,
        decreases prefs.len(),
    {
        if prefs.len() > 0 {
            if !(!matched.contains(prefs[0].0) && prefs[0].1 > PAIR_MIN_SCORE) {
                Self::lemma_first_partner_member(prefs.drop_first(), matched);
                if Self::first_partner(prefs, matched) is Some {
                    let w = choose|w: int|
                        0 <= w < prefs.drop_first().len() && (#[trigger] prefs.drop_first()[w]).0
                            == Self::first_partner(prefs.drop_first(), matched)->Some_0;
                    assert(prefs[w + 1].0 == Self::first_partner(prefs, matched)->Some_0);
                }
            }
        }
    }

    /// Inserting at the first position whose entry the newcomer beats
    /// is exactly the stable insertion.
    proof fn lemma_insert_pref_at(s: Seq<(u128, u64)>, x: (u128, u64), p: int)
        requires
            0 <= p <= s.len(),
            forall|m: int| 0 <= m < p ==> !(x.1 > (#[trigger] s[m]).1),
            p == s.len() || x.1 > s[p].1,
        ensures
            Self::insert_pref(s, x) == s.take(p) + seq![x] + s.skip(p),
        decreases s.len(),
    {
        if s.len() == 0 {
            assert(Self::insert_pref(s, x) =~= s.take(p) + seq![x] + s.skip(p));
        } else if p == 0 {
            assert(x.1 > s[0].1);
            assert(Self::insert_pref(s, x) == seq![x] + s);
            assert(seq![x] + s =~= s.take(0) + seq![x] + s.skip(0));
        } else {
            assert(!(x.1 > s[0].1));
            let rest = s.drop_first();
            assert forall|m: int| 0 <= m < p - 1 implies !(x.1 > (#[trigger] rest[m]).1) by {
                assert(rest[m] == s[m + 1]);
            }
            assert(p - 1 == rest.len() || x.1 > rest[p - 1].1) by {
                if p - 1 < rest.len() {
                    assert(rest[p - 1] == s[p]);
                }
            }
            Self::lemma_insert_pref_at(rest, x, p - 1);
            assert(Self::insert_pref(s, x) == seq![s[0]] + (rest.take(p - 1) + seq![x]
                + rest.skip(p - 1)));
            assert(seq![s[0]] + (rest.take(p - 1) + seq![x] + rest.skip(p - 1)) =~= s.take(p)
                + seq![x] + s.skip(p));
        }
    }

    /// Sorts a preference list, stably, largest score first.
    fn sort_prefs_exec(input: Vec<(u128, u64)>) -> (r: Vec<(u128, u64)>)
        ensures
            r@ == Self::sort_prefs(input@),
    {
        let mut out: Vec<(u128, u64)> = Vec::new();
        let mut i: usize = 0;
        proof {
            assert(input@.take(0) =~= Seq::<(u128, u64)>::empty());
        }
        while i < input.len()
            invariant
                i <= input@.len(),
                out@ == Self::sort_prefs(input@.take(i as int)),
            decreases input@.len() - i,
        {
            let x = input[i];
            let ghost out_before = out@;
            let mut p: usize = 0;
            while p < out.len() && !(x.1 > out[p].1)
                invariant
                    p <= out@.len(),
                    out@ == out_before,
                    forall|m: int| 0 <= m < p ==> !(x.1 > (#[trigger] out@[m]).1),
                ensures
                    p <= out@.len(),
                    out@ == out_before,
                    forall|m: int| 0 <= m < p ==> !(x.1 > (#[trigger] out@[m]).1),
                    p == out@.len() || x.1 > out@[p as int].1,
                decreases out@.len() - p,
            {
                p += 1;
            }
            out.insert(p, x);
            proof {
                Self::lemma_insert_pref_at(out_before, x, p as int);
                assert(out@ =~= out_before.take(p as int) + seq![x] + out_before.skip(p as int));
                assert(input@.take(i + 1).drop_last() =~= input@.take(i as int));
                assert(input@.take(i + 1).last() == x);
            }
            i += 1;
        }
        proof {
            assert(input@.take(input@.len() as int) =~= input@);
        }
        out
    }

    /// The first unmatched partner in the list whose score beats the
    /// floor.
    fn first_partner_exec(prefs: &Vec<(u128, u64)>, matched: &Vec<u128>) -> (r: Option<u128>)
        ensures
            r == Self::first_partner(prefs@, matched@.to_set()),
    {
        let ghost mset = matched@.to_set();
        let mut m: usize = 0;
        proof {
            assert(prefs@.skip(0) =~= prefs@);
        }
        while m < prefs.len()
            invariant
                m <= prefs@.len(),
                mset == matched@.to_set(),
                Self::first_partner(prefs@.skip(m as int), mset) == Self::first_partner(
                    prefs@,
                    mset,
                ),
            ensures
                m <= prefs@.len(),
                Self::first_partner(prefs@.skip(m as int), mset) == Self::first_partner(
                    prefs@,
                    mset,
                ),
                m < prefs@.len() ==> !mset.contains(prefs@[m as int].0)
                    && prefs@[m as int].1 > PAIR_MIN_SCORE,
            decreases prefs@.len() - m,
        {
            let entry = prefs[m];
            let hit = !crate::hypergraph::ids_contain(matched, entry.0) && entry.1
                > PAIR_MIN_SCORE;
            proof {
                assert(mset.contains(entry.0) == matched@.contains(entry.0));
                assert(prefs@.skip(m as int)[0] == entry);
                assert(prefs@.skip(m as int).drop_first() =~= prefs@.skip(m + 1));
            }
            if hit {
                break ;
            }
            m += 1;
        }
        if m < prefs.len() {
            proof {
                assert(prefs@.skip(m as int)[0] == prefs@[m as int]);
                assert(Self::first_partner(prefs@.skip(m as int), mset) == Some(
                    prefs@[m as int].0,
                ));
            }
            Some(prefs[m].0)
        } else {
            proof {
                assert(prefs@.skip(m as int).len() == 0);
            }
            None
        }
    }

    /// Builds a candidate's unsorted preference list.
    fn pref_raw_exec(graph: &HyperGraph, c: u128, candidates: &Vec<u128>) -> (r: Vec<(u128, u64)>)
        requires
            graph.wf(),
        ensures
            r@ == Self::pref_raw(*graph, c, candidates@),
    {
        let ghost pred = Self::pref_pred(*graph, c);
        let ghost to_entry = Self::pref_entry(*graph, c);
        let mut r: Vec<(u128, u64)> = Vec::new();
        let mut i: usize = 0;
        while i < candidates.len()
            invariant
                graph.wf(),
                i <= candidates@.len(),
                pred == Self::pref_pred(*graph, c),
                to_entry == Self::pref_entry(*graph, c),
                r@ == candidates@.take(i as int).filter(pred).map_values(to_entry),
            decreases candidates@.len() - i,
        {
            let ghost prefix = candidates@.take(i as int);
            proof {
                assert(candidates@.take(i + 1).drop_last() =~= prefix);
                assert(candidates@.take(i + 1).last() == candidates@[i as int]);
                reveal(Seq::filter);
            }
            let o = candidates[i];
            if o != c && graph.get_node(o).is_some() && graph.get_node(c).is_some() {
                let score = Self::alignment_score_exec(graph, c, o);
                r.push((o, score));
                proof {
                    assert(candidates@.take(i + 1).filter(pred) == prefix.filter(pred).push(o));
                    assert(prefix.filter(pred).push(o).map_values(to_entry) =~= prefix.filter(
                        pred,
                    ).map_values(to_entry).push(to_entry(o)));
                }
            } else {
                proof {
                    assert(candidates@.take(i + 1).filter(pred) == prefix.filter(pred));
                }
            }
            i += 1;
        }
        proof {
            assert(candidates@.take(candidates@.len() as int) =~= candidates@);
        }
        r
    }

    /// Pushes an id, growing the matched set by it.
    fn push_matched(v: &mut Vec<u128>, x: u128)
        ensures
            final(v)@ == old(v)@.push(x),
            final(v)@.to_set() == old(v)@.to_set().insert(x),
    {
        let ghost before = v@;
        v.push(x);
        proof {
            assert forall|a: u128| #[trigger] v@.to_set().contains(a) implies before.to_set()
                .insert(x).contains(a) by {
                assert(v@.contains(a));
                let i = choose|i: int| 0 <= i < v@.len() && v@[i] == a;
                if i < before.len() {
                    assert(before[i] == a);
                    assert(before.contains(a));
                } else {
                    assert(a == x);
                }
            }
            assert forall|a: u128| #[trigger] before.to_set().insert(x).contains(a) implies v@
                .to_set().contains(a) by {
                if a == x {
                    assert(v@[v@.len() - 1] == a);
                    assert(v@.contains(a));
                } else {
                    assert(before.contains(a));
                    let i = choose|i: int| 0 <= i < before.len() && before[i] == a;
                    assert(v@[i] == a);
                    assert(v@.contains(a));
                }
            }
            assert(v@.to_set() =~= before.to_set().insert(x));
        }
    }

    /// Greedy pairing over the candidate list: each yet-unmatched
    /// candidate, in input order, takes the first unmatched partner
    /// its ranked preferences accept; the pairs are then ranked by
    /// potential value, highest first, and capped at `max_pairs`.
    pub fn find_optimal_pairs(
        graph: &HyperGraph,
        candidate_nodes: &Vec<u128>,
        max_pairs: usize,
    ) -> (r: Vec<GoalAlignment>)
        requires
            graph.wf(),
        ensures
            forall|i: int|
                0 <= i < r@.len() ==> Self::is_alignment_result(*graph, #[trigger] r@[i]),
            forall|i: int, j: int|
                0 <= i < j < r@.len() ==> (#[trigger] r@[i]).potential_value >= (
                #[trigger] r@[j]).potential_value,
            ({
                let triples = Self::optimal_triples(*graph, candidate_nodes@, max_pairs);
                if max_pairs == 0 {
                    r@.len() == 0
                } else {
                    r@.len() == triples.len() && r@.map_values(
                        |al: GoalAlignment| (al.node1, al.node2, al.potential_value),
                    ).to_multiset() == triples.to_multiset()
                }
            }),
    {
        broadcast use vstd::seq_lib::group_to_multiset_ensures;

        let ghost cands = candidate_nodes@;
        let len = candidate_nodes.len();
        let mut matched: Vec<u128> = Vec::new();
        let mut acc: Vec<(u128, u128, u64)> = Vec::new();
        let mut i: usize = 0;
        proof {
            assert(matched@.to_set() =~= Set::<u128>::empty());
        }
        loop
            invariant_except_break
                Self::greedy_triples(
                    *graph,
                    cands,
                    i as int,
                    matched@.to_set(),
                    acc@,
                    max_pairs,
                ) == Self::optimal_triples(*graph, cands, max_pairs),
                acc@.len() < crate::fixed::max_int(max_pairs as int, 1),
            invariant
                graph.wf(),
                cands == candidate_nodes@,
                len == cands.len(),
                i <= len,
                forall|k: int|
                    0 <= k < acc@.len() ==> graph.has_node((#[trigger] acc@[k]).0)
                        && graph.has_node(acc@[k].1) && acc@[k].2 == Self::pair_potential(
                        *graph,
                        acc@[k].0,
                        acc@[k].1,
                    ),
            ensures
                Self::optimal_triples(*graph, cands, max_pairs) == acc@,
                acc@.len() <= crate::fixed::max_int(max_pairs as int, 1),
                forall|k: int|
                    0 <= k < acc@.len() ==> graph.has_node((#[trigger] acc@[k]).0)
                        && graph.has_node(acc@[k].1) && acc@[k].2 == Self::pair_potential(
                        *graph,
                        acc@[k].0,
                        acc@[k].1,
                    ),
            decreases len - i,
        {
            if i >= len {
                break ;
            }
            let c = candidate_nodes[i];
            if crate::hypergraph::ids_contain(&matched, c) {
                proof {
                    assert(matched@.to_set().contains(c) == matched@.contains(c));
                    assert(Self::greedy_triples(
                        *graph,
                        cands,
                        i as int,
                        matched@.to_set(),
                        acc@,
                        max_pairs,
                    ) == Self::greedy_triples(
                        *graph,
                        cands,
                        i + 1 as int,
                        matched@.to_set(),
                        acc@,
                        max_pairs,
                    ));
                }
                i += 1;
                continue ;
            }
            proof {
                assert(matched@.to_set().contains(c) == matched@.contains(c));
            }
            let ghost mset_old = matched@.to_set();
            let raw = Self::pref_raw_exec(graph, c, candidate_nodes);
            let prefs = Self::sort_prefs_exec(raw);
            let partner = Self::first_partner_exec(&prefs, &matched);
            match partner {
                Some(p) => {
                    proof {
                        Self::lemma_first_partner_member(prefs@, matched@.to_set());
                        let w = choose|w: int|
                            0 <= w < prefs@.len() && (#[trigger] prefs@[w]).0 == p;
                        Self::lemma_sort_prefs_contains(raw@, prefs@[w]);
                        assert(raw@.contains(prefs@[w]));
                        let v = choose|v: int| 0 <= v < raw@.len() && raw@[v] == prefs@[w];
                        let filtered = cands.filter(Self::pref_pred(*graph, c));
                        assert(raw@[v] == Self::pref_entry(*graph, c)(filtered[v]));
                        assert(raw@[v].0 == filtered[v]);
                        cands.lemma_filter_pred(Self::pref_pred(*graph, c), v);
                        assert(Self::pref_pred(*graph, c)(filtered[v]));
                        assert(graph.has_node(p) && graph.has_node(c));
                    }
                    let al = match Self::analyze_goal_alignment(graph, c, p) {
                        Ok(al) => al,
                        Err(_) => vstd::pervasive::unreached(),
                    };
                    let ghost acc_before = acc@;
                    acc.push((c, p, al.potential_value));
                    proof {
                        assert(al.potential_value == Self::pair_potential(*graph, c, p));
                        assert(acc@ == acc_before.push(
                            (c, p, Self::pair_potential(*graph, c, p) as u64),
                        ));
                    }
                    Self::push_matched(&mut matched, c);
                    Self::push_matched(&mut matched, p);
                    proof {
                        assert(prefs@ == Self::prefs_of(*graph, c, cands));
                        assert(Self::first_partner(Self::prefs_of(*graph, c, cands), mset_old)
                            == Some(p));
                        assert(matched@.to_set() == mset_old.insert(c).insert(p));
                        assert(Self::greedy_triples(
                            *graph,
                            cands,
                            i as int,
                            mset_old,
                            acc_before,
                            max_pairs,
                        ) == (if acc@.len() >= max_pairs {
                            acc@
                        } else {
                            Self::greedy_triples(
                                *graph,
                                cands,
                                i + 1 as int,
                                matched@.to_set(),
                                acc@,
                                max_pairs,
                            )
                        }));
                    }
                    if acc.len() >= max_pairs {
                        break ;
                    }
                    i += 1;
                },
                None => {
                    proof {
                        assert(prefs@ == Self::prefs_of(*graph, c, cands));
                        assert(Self::greedy_triples(
                            *graph,
                            cands,
                            i as int,
                            mset_old,
                            acc@,
                            max_pairs,
                        ) == (if acc@.len() >= max_pairs {
                            acc@
                        } else {
                            Self::greedy_triples(
                                *graph,
                                cands,
                                i + 1 as int,
                                mset_old,
                                acc@,
                                max_pairs,
                            )
                        }));
                    }
                    if acc.len() >= max_pairs {
                        break ;
                    }
                    i += 1;
                },
            }
        }
        let mut sorted = crate::neural::sort_triples_desc(acc);
        if sorted.len() > max_pairs {
            sorted.truncate(max_pairs);
        }
        let ghost final_triples = sorted@;
        proof {
            assert forall|k: int|
                0 <= k < sorted@.len() implies graph.has_node((#[trigger] sorted@[k]).0)
                && graph.has_node(sorted@[k].1) && sorted@[k].2 == Self::pair_potential(
                *graph,
                sorted@[k].0,
                sorted@[k].1,
            ) by {
                assert(sorted@.to_multiset().count(sorted@[k]) > 0) by {
                    assert(sorted@.contains(sorted@[k]));
                }
            }
        }
        let mut out: Vec<GoalAlignment> = Vec::new();
        let mut q: usize = 0;
        while q < sorted.len()
            invariant
                graph.wf(),
                q <= sorted@.len(),
                forall|k: int|
                    0 <= k < sorted@.len() ==> graph.has_node((#[trigger] sorted@[k]).0)
                        && graph.has_node(sorted@[k].1) && sorted@[k].2 == Self::pair_potential(
                        *graph,
                        sorted@[k].0,
                        sorted@[k].1,
                    ),
                out@.len() == q,
                forall|k: int|
                    0 <= k < q ==> Self::is_alignment_result(*graph, #[trigger] out@[k])
                        && out@[k].node1 == sorted@[k].0 && out@[k].node2 == sorted@[k].1
                        && out@[k].potential_value == sorted@[k].2,
            decreases sorted@.len() - q,
        {
            let t = sorted[q];
            let al = match Self::analyze_goal_alignment(graph, t.0, t.1) {
                Ok(al) => al,
                Err(_) => vstd::pervasive::unreached(),
            };
            out.push(al);
            q += 1;
        }
        proof {
            assert(out@.map_values(|al: GoalAlignment| (al.node1, al.node2, al.potential_value))
                =~= final_triples);
            if max_pairs > 0 {
                assert(sorted@ == final_triples);
            }
            assert forall|a: int, b: int|
                0 <= a < b < out@.len() implies (#[trigger] out@[a]).potential_value >= (
            #[trigger] out@[b]).potential_value by {
                assert(final_triples[a].2 >= final_triples[b].2);
            }
        }
        out
    }

    /// `floor(log2 n)`, zero at and below one.
    pub open spec fn ilog2(n: int) -> int
        decreases n,
    {
        if n <= 1 {
            0
        } else {
            1 + Self::ilog2(n / 2)
        }
    }

    /// Integer powers of two.
    pub open spec fn pow2i(k: int) -> int
        decreases k,
    {
        if k <= 0 {
            1
        } else {
            2 * Self::pow2i(k - 1)
        }
    }

    /// The library's fixed-point natural logarithm of a count: the
    /// binary exponent times ln 2, plus a two-term series on the
    /// normalized remainder.
    pub open spec fn fx_ln(c: int) -> int {
        let k = Self::ilog2(c);
        let m = c * (ONE as int) / Self::pow2i(k);
        let f = m - ONE as int;
        (LN2 as int) * k + f - f * f / (2 * ONE as int)
    }

    /// The eigenvector-centrality approximation: `fx_ln` of the
    /// neighbour count over ten, zero for an isolated node.
    pub open spec fn eigenvector_of(count: int) -> int {
        if count == 0 {
            0
        } else {
            Self::fx_ln(count) / 10
        }
    }

    /// `pow2i` agrees with the library powers of two.
    proof fn lemma_pow2i_is_pow2(k: int)
        requires
            k >= 0,
        ensures
            Self::pow2i(k) == vstd::arithmetic::power2::pow2(k as nat),
        decreases k,
    {
        if k == 0 {
            assert(vstd::arithmetic::power2::pow2(0) == 1) by {
                vstd::arithmetic::power2::lemma2_to64();
            }
        } else {
            Self::lemma_pow2i_is_pow2(k - 1);
            vstd::arithmetic::power2::lemma_pow2_unfold(k as nat);
        }
    }

    /// Computes [`Self::fx_ln`].
    fn fx_ln_exec(c: u64) -> (r: u64)
        requires
            c >= 1,
        ensures
            r == Self::fx_ln(c as int),
    {
        let mut v: u64 = c;
        let mut k: u64 = 0;
        let mut p2: u64 = 1;
        while v >= 2
            invariant
                1 <= v,
                c >= 1,
                Self::ilog2(c as int) == k + Self::ilog2(v as int),
                p2 == Self::pow2i(k as int),
                v == c / p2,
                p2 >= 1,
                k <= 64,
            decreases v,
        {
            proof {
                vstd::arithmetic::div_mod::lemma_fundamental_div_mod(c as int, p2 as int);
                assert((c as int) >= 2 * (p2 as int)) by (nonlinear_arith)
                    requires
                        c as int == ((c as int) / (p2 as int)) * (p2 as int) + (c as int) % (
                        p2 as int),
                        (c as int) % (p2 as int) >= 0,
                        (c as int) / (p2 as int) >= 2,
                        p2 as int >= 1,
                ;
                vstd::arithmetic::div_mod::lemma_div_denominator(c as int, p2 as int, 2);
                assert(((c as int) / (p2 as int)) / 2 == (c as int) / ((p2 as int) * 2));
                assert(k < 64) by {
                    if k == 64 {
                        Self::lemma_pow2i_is_pow2(64);
                        vstd::arithmetic::power2::lemma2_to64();
                        assert(p2 as int == vstd::arithmetic::power2::pow2(64));
                    }
                }
            }
            v = v / 2;
            k = k + 1;
            p2 = p2 * 2;
        }
        proof {
            assert(Self::ilog2(v as int) == 0);
            assert(Self::ilog2(c as int) == k as int);
            vstd::arithmetic::div_mod::lemma_fundamental_div_mod(c as int, p2 as int);
        }
        proof {
            let ci = c as int;
            let pi = p2 as int;
            assert(pi <= ci && ci < 2 * pi) by (nonlinear_arith)
                requires
                    ci == (ci / pi) * pi + ci % pi,
                    0 <= ci % pi < pi,
                    ci / pi == 1,
                    pi >= 1,
            ;
            assert(ci * (ONE as int) <= 0xFFFF_FFFF_FFFF_FFFF_0000_0000u128 as int) by (
            nonlinear_arith)
                requires
                    0 <= ci <= 0xFFFF_FFFF_FFFF_FFFFu64 as int,
            ;
            assert((ONE as int) <= ci * (ONE as int) / pi < 2 * (ONE as int)) by (
            nonlinear_arith)
                requires
                    pi <= ci < 2 * pi,
                    pi >= 1,
            ;
        }
        let m: u64 = ((c as u128) * (ONE as u128) / (p2 as u128)) as u64;
        proof {
            assert(m == (c as int) * (ONE as int) / (p2 as int));
        }
        let f: u64 = m - ONE;
        proof {
            assert((f as int) * (f as int) <= 0xFFFF_FFFF_FFFF_FFFFu64 as int) by (
            nonlinear_arith)
                requires
                    0 <= f as int,
                    (f as int) < (ONE as int),
            ;
            assert((f as int) * (f as int) / (2 * ONE as int) <= f as int) by (nonlinear_arith)
                requires
                    0 <= f as int,
                    (f as int) < (ONE as int),
            ;
        }
        let corr: u64 = f - (f * f) / (2 * ONE);
        LN2 * k + corr
    }

    /// Degree, the two constant placeholders, and the eigenvector
    /// approximation, per node, in store order.
    pub fn calculate_centrality_measures(graph: &HyperGraph) -> (r: Vec<(u128,
        CentralityMeasures,
    )>)
        requires
            graph.wf(),
        ensures
            r@.len() == graph.nodes_seq().len(),
            forall|i: int|
                0 <= i < r@.len() ==> {
                    let id = graph.nodes_seq()[i].id;
                    &&& (#[trigger] r@[i]).0 == id
                    &&& r@[i].1.degree == graph.incident_edges(id).len()
                    &&& r@[i].1.betweenness == 500_000
                    &&& r@[i].1.closeness == 500_000
                    &&& r@[i].1.eigenvector == Self::eigenvector_of(
                        graph.neighbors_of(id).len() as int,
                    )
                },
    {
        let mut r: Vec<(u128, CentralityMeasures)> = Vec::new();
        let node_total = graph.node_count();
        let mut i: usize = 0;
        while i < node_total
            invariant
                graph.wf(),
                node_total == graph.nodes_seq().len(),
                i <= node_total,
                r@.len() == i,
                forall|w: int|
                    0 <= w < i ==> {
                        let id = graph.nodes_seq()[w].id;
                        &&& (#[trigger] r@[w]).0 == id
                        &&& r@[w].1.degree == graph.incident_edges(id).len()
                        &&& r@[w].1.betweenness == 500_000
                        &&& r@[w].1.closeness == 500_000
                        &&& r@[w].1.eigenvector == Self::eigenvector_of(
                            graph.neighbors_of(id).len() as int,
                        )
                    },
            decreases node_total - i,
        {
            let id = graph.nodes()[i].id;
            let degree = graph.get_node_edges(id).len() as u64;
            let neighbors = graph.get_neighbors(id);
            let eigenvector: u64 = if neighbors.len() == 0 {
                0
            } else {
                Self::fx_ln_exec(neighbors.len() as u64) / 10
            };
            proof {
                assert(graph.nodes_seq()[i as int].id == id);
                assert(graph.has_node(id));
                graph.lemma_node_index(id);
                assert(graph.node_index_of(id) == i as int);
            }
            r.push(
                (
                    id,
                    CentralityMeasures {
                        degree,
                        betweenness: 500_000,
                        closeness: 500_000,
                        eigenvector,
                    },
                ),
            );
            i += 1;
        }
        r
    }

    /// A semantic alignment lies in `[0, ONE]`.
    pub proof fn lemma_semantic_bounds(n1: HyperNode, n2: HyperNode)
        ensures
            0 <= Self::semantic_alignment_of(n1, n2) <= ONE as int,
    {
        let tags_shared = tag_match_count(n1.tags@, n2.tags@);
        n1.tags@.lemma_filter_len(|s: String| contains_text(n2.tags@, s@));
        assert(n1.tags@.filter(|s: String| contains_text(n2.tags@, s@)).len() >= 0);
        let tag_total = n1.tags@.len() + n2.tags@.len();
        assert(0 <= floored_ratio(tags_shared, tag_total as int) <= ONE as int) by (
        nonlinear_arith)
            requires
                0 <= tags_shared,
                tags_shared <= tag_total,
        ;
        let props_shared = prop_key_match_count(n1.properties@, n2.properties@);
        n1.properties@.lemma_filter_len(
            |e: crate::hypergraph::PropEntry| has_prop_key(n2.properties@, e.key@),
        );
        assert(n1.properties@.filter(
            |e: crate::hypergraph::PropEntry| has_prop_key(n2.properties@, e.key@),
        ).len() >= 0);
        let prop_total = n1.properties@.len() + n2.properties@.len();
        assert(0 <= floored_ratio(props_shared, prop_total as int) <= ONE as int) by (
        nonlinear_arith)
            requires
                0 <= props_shared,
                props_shared <= prop_total,
        ;
    }
}

} // verus!
